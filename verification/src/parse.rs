//! Stack effect diagrams and the parser for their textual notation.
//!
//! The notation is one line: input symbols, a `--` separator, output
//! symbols.  Input symbols must be pairwise distinct; every output symbol
//! must name an input symbol; outputs may repeat, drop or reorder inputs.
//! [`spec_parse`] states the accepted language and the reported errors
//! exactly; [`parse`] decides it.

use vstd::prelude::*;
use vstd::string::StrSliceExecFns;
use vstd::string::StringExecFns;

verus! {

/// Represents a stack effect diagram.
///
/// `inputs` counts the named source cells; `mapping` holds, for each output
/// position, the index of the source cell whose value it receives.
#[derive(Debug, PartialEq, Eq, Clone)]
pub struct StackEffectDiagram {
    /// Mapping of output positions to their source positions.
    pub mapping: Vec<usize>,
    /// The number of input symbols.
    pub inputs: usize,
}

impl StackEffectDiagram {
    /// The mapping as a sequence of mathematical integers.
    pub open spec fn map_view(&self) -> Seq<int> {
        crate::graph::cells(self.mapping@)
    }

    /// A diagram the solver accepts: every source index names an input
    /// slot, and every cell address fits the address type.
    pub open spec fn wf(&self) -> bool {
        &&& crate::graph::valid_mapping(self.inputs as int, self.map_view())
        &&& self.inputs <= isize::MAX as usize
        &&& self.mapping.len() <= isize::MAX as usize
    }
}

/// Returned when [`parse`] fails.
#[derive(Debug, PartialEq, Eq, Clone, Hash)]
pub enum ParseError {
    /// Returned when there is no `--` symbol in the input.
    MissingDoubleDash,
    /// Returned when there is more than one `--` symbol in the input.
    AdditionalDoubleDash,
    /// Returned when a symbol is defined twice.
    SymbolDefinedTwice {
        /// The symbol that is defined twice
        symbol: String,
        /// The symbol number of the first occurrence
        first: usize,
        /// The symbol number of the second occurrence
        second: usize,
    },
    /// Returned when a symbol is used but not defined.
    SymbolNotDefined {
        /// The symbol that is used but not defined
        symbol: String,
        /// The symbol number of the first occurrence
        id: usize,
    },
}

/// The mathematical shape of a [`ParseError`]: symbols as character
/// sequences, positions as integers.
pub enum ParseErrorView {
    /// No `--` separator.
    MissingDoubleDash,
    /// More than one `--` separator.
    AdditionalDoubleDash,
    /// An input symbol repeated, with both occurrences.
    SymbolDefinedTwice { symbol: Seq<char>, first: int, second: int },
    /// An output symbol that names no input, with its position.
    SymbolNotDefined { symbol: Seq<char>, id: int },
}

impl View for ParseError {
    type V = ParseErrorView;

    open spec fn view(&self) -> ParseErrorView {
        match self {
            ParseError::MissingDoubleDash => ParseErrorView::MissingDoubleDash,
            ParseError::AdditionalDoubleDash => ParseErrorView::AdditionalDoubleDash,
            ParseError::SymbolDefinedTwice { symbol, first, second } => {
                ParseErrorView::SymbolDefinedTwice {
                    symbol: symbol@,
                    first: *first as int,
                    second: *second as int,
                }
            },
            ParseError::SymbolNotDefined { symbol, id } => {
                ParseErrorView::SymbolNotDefined { symbol: symbol@, id: *id as int }
            },
        }
    }
}

impl ParseError {
    /// A human-readable account of the error, as its display text.
    pub fn message(&self) -> (r: String)
        ensures
            r@ == spec_message(self@),
    {
        match self {
            ParseError::MissingDoubleDash => "Missing --".to_owned(),
            ParseError::AdditionalDoubleDash => "Additional --".to_owned(),
            ParseError::SymbolDefinedTwice { symbol, first, second } => {
                let mut r = "Symbol ".to_owned();
                r.append(symbol.as_str());
                r.append(" defined twice at ");
                push_decimal(&mut r, *first);
                r.append(" and ");
                push_decimal(&mut r, *second);
                r
            },
            ParseError::SymbolNotDefined { symbol, id } => {
                let mut r = "Symbol ".to_owned();
                r.append(symbol.as_str());
                r.append(" not defined at ");
                push_decimal(&mut r, *id);
                r
            },
        }
    }
}

/// The display text of a parse error.
pub open spec fn spec_message(e: ParseErrorView) -> Seq<char> {
    match e {
        ParseErrorView::MissingDoubleDash => "Missing --"@,
        ParseErrorView::AdditionalDoubleDash => "Additional --"@,
        ParseErrorView::SymbolDefinedTwice { symbol, first, second } => "Symbol "@ + symbol
            + " defined twice at "@ + decimal_digits(first as nat) + " and "@
            + decimal_digits(second as nat),
        ParseErrorView::SymbolNotDefined { symbol, id } => "Symbol "@ + symbol
            + " not defined at "@ + decimal_digits(id as nat),
    }
}

/// The decimal numeral of a number, most significant digit first.
pub open spec fn decimal_digits(n: nat) -> Seq<char>
    decreases n,
{
    if n < 10 {
        seq![decimal_digit(n)]
    } else {
        decimal_digits(n / 10).push(decimal_digit(n % 10))
    }
}

/// The character for one decimal digit.
pub open spec fn decimal_digit(d: nat) -> char {
    if d == 0 {
        '0'
    } else if d == 1 {
        '1'
    } else if d == 2 {
        '2'
    } else if d == 3 {
        '3'
    } else if d == 4 {
        '4'
    } else if d == 5 {
        '5'
    } else if d == 6 {
        '6'
    } else if d == 7 {
        '7'
    } else if d == 8 {
        '8'
    } else {
        '9'
    }
}

/// Append the decimal numeral of `n` to a string.
fn push_decimal(r: &mut String, n: usize)
    ensures
        final(r)@ == old(r)@ + decimal_digits(n as nat),
    decreases n,
{
    if n >= 10 {
        push_decimal(r, n / 10);
    }
    let ghost mid = r@;
    let d = n % 10;
    if d == 0 {
        r.append("0");
    } else if d == 1 {
        r.append("1");
    } else if d == 2 {
        r.append("2");
    } else if d == 3 {
        r.append("3");
    } else if d == 4 {
        r.append("4");
    } else if d == 5 {
        r.append("5");
    } else if d == 6 {
        r.append("6");
    } else if d == 7 {
        r.append("7");
    } else if d == 8 {
        r.append("8");
    } else {
        r.append("9");
    }
    proof {
        reveal_strlit("0");
        reveal_strlit("1");
        reveal_strlit("2");
        reveal_strlit("3");
        reveal_strlit("4");
        reveal_strlit("5");
        reveal_strlit("6");
        reveal_strlit("7");
        reveal_strlit("8");
        reveal_strlit("9");
        assert(r@ =~= mid + seq![decimal_digit((n % 10) as nat)]);
        if n >= 10 {
            assert(r@ =~= old(r)@ + decimal_digits(n as nat));
        } else {
            assert(decimal_digits(n as nat) == seq![decimal_digit(n as nat)]);
            assert(r@ =~= old(r)@ + decimal_digits(n as nat));
        }
    }
}

/// Whether a character separates symbols.  The name stands for what
/// `char::is_whitespace` returns: a fixed function of the character.
pub uninterp spec fn is_unicode_whitespace(c: char) -> bool;

/// Relies on `char::is_whitespace`: whether the character has the Unicode
/// whitespace property, a function of the character alone.
#[verifier::external_body]
fn char_is_whitespace(c: char) -> (r: bool)
    ensures
        r == is_unicode_whitespace(c),
{
    c.is_whitespace()
}

/// Relies on `str::len`: the byte length of the text.  UTF-8 spends at
/// least one byte per character, and Rust documents that no object spans
/// more than `isize::MAX` bytes, so the character count is bounded too.
#[verifier::external_body]
fn str_byte_len(s: &str) -> (n: usize)
    ensures
        s@.len() <= n <= isize::MAX as usize,
{
    s.len()
}

/// The first position at or after `i` where `--` stands, or `-1`.
pub open spec fn find_dd_from(s: Seq<char>, i: int) -> int
    decreases s.len() - i,
{
    if i < 0 || i + 2 > s.len() {
        -1
    } else if s[i] == '-' && s[i + 1] == '-' {
        i
    } else {
        find_dd_from(s, i + 1)
    }
}

/// The end of the symbol starting at `i`: the first position at or after
/// `i` holding whitespace, or the end of the text.
pub open spec fn token_end(s: Seq<char>, i: int) -> int
    decreases s.len() - i,
{
    if i < 0 || i >= s.len() || is_unicode_whitespace(s[i]) {
        i
    } else {
        token_end(s, i + 1)
    }
}

/// The end of a symbol lies between its start and the end of the text.
pub proof fn lemma_token_end(s: Seq<char>, i: int)
    requires
        0 <= i <= s.len(),
    ensures
        i <= token_end(s, i) <= s.len(),
    decreases s.len() - i,
{
    if i < s.len() && !is_unicode_whitespace(s[i]) {
        lemma_token_end(s, i + 1);
    }
}

/// The symbols of a piece of text from position `i` on: maximal runs of
/// non-whitespace characters, in order.
pub open spec fn tokens_from(s: Seq<char>, i: int) -> Seq<Seq<char>>
    decreases s.len() - i,
    via tokens_from_decreases
{
    if i < 0 || i >= s.len() {
        Seq::empty()
    } else if is_unicode_whitespace(s[i]) {
        tokens_from(s, i + 1)
    } else {
        seq![s.subrange(i, token_end(s, i))] + tokens_from(s, token_end(s, i))
    }
}

#[via_fn]
proof fn tokens_from_decreases(s: Seq<char>, i: int) {
    if 0 <= i < s.len() && !is_unicode_whitespace(s[i]) {
        lemma_token_end(s, i + 1);
    }
}

/// A text of `k` characters holds at most `k` symbols.
pub proof fn lemma_tokens_count(s: Seq<char>, i: int)
    requires
        0 <= i <= s.len(),
    ensures
        tokens_from(s, i).len() <= s.len() - i,
    decreases s.len() - i,
{
    if i < s.len() {
        if is_unicode_whitespace(s[i]) {
            lemma_tokens_count(s, i + 1);
        } else {
            lemma_token_end(s, i + 1);
            assert(token_end(s, i) == token_end(s, i + 1));
            lemma_tokens_count(s, token_end(s, i));
        }
    }
}

/// The first position of symbol `x` in a symbol list at or after `j`, or
/// the length of the list.
pub open spec fn first_index_from(toks: Seq<Seq<char>>, x: Seq<char>, j: int) -> int
    decreases toks.len() - j,
{
    if j < 0 || j >= toks.len() {
        toks.len() as int
    } else if toks[j] == x {
        j
    } else {
        first_index_from(toks, x, j + 1)
    }
}

/// The first symbol position at or after `j` that repeats an earlier
/// symbol, or the length of the list.
pub open spec fn first_dup_from(toks: Seq<Seq<char>>, j: int) -> int
    decreases toks.len() - j,
{
    if j < 0 || j >= toks.len() {
        toks.len() as int
    } else if first_index_from(toks, toks[j], 0) < j {
        j
    } else {
        first_dup_from(toks, j + 1)
    }
}

/// The first output position at or after `k` whose symbol names no input,
/// or the number of outputs.
pub open spec fn first_undefined_from(
    ins: Seq<Seq<char>>,
    outs: Seq<Seq<char>>,
    k: int,
) -> int
    decreases outs.len() - k,
{
    if k < 0 || k >= outs.len() {
        outs.len() as int
    } else if first_index_from(ins, outs[k], 0) >= ins.len() {
        k
    } else {
        first_undefined_from(ins, outs, k + 1)
    }
}

/// A first-position search lands between its start and the list's end.
pub proof fn lemma_first_index_bounds(toks: Seq<Seq<char>>, x: Seq<char>, j: int)
    requires
        0 <= j <= toks.len(),
    ensures
        j <= first_index_from(toks, x, j) <= toks.len(),
    decreases toks.len() - j,
{
    if j < toks.len() && toks[j] != x {
        lemma_first_index_bounds(toks, x, j + 1);
    }
}

/// When no output symbol is undefined, every output symbol names an input.
pub proof fn lemma_no_undefined(ins: Seq<Seq<char>>, outs: Seq<Seq<char>>, k: int)
    requires
        0 <= k,
        first_undefined_from(ins, outs, k) == outs.len(),
    ensures
        forall|t: int|
            k <= t < outs.len() ==> #[trigger] first_index_from(ins, outs[t], 0)
                < ins.len(),
    decreases outs.len() - k,
{
    if k < outs.len() {
        lemma_no_undefined(ins, outs, k + 1);
    }
}

/// What parsing a line yields: a diagram or an error.
pub enum SpecParse {
    /// The accepted case.
    Parsed { inputs: int, mapping: Seq<int> },
    /// The rejected case.
    Failed { error: ParseErrorView },
}

/// The meaning of the textual notation: split at the single `--`, read the
/// input symbols (rejecting a repeat), and map each output symbol to the
/// input it names (rejecting an unknown one).
pub open spec fn spec_parse(s: Seq<char>) -> SpecParse {
    let i1 = find_dd_from(s, 0);
    if i1 < 0 {
        SpecParse::Failed { error: ParseErrorView::MissingDoubleDash }
    } else {
        let part0 = s.take(i1);
        let part1 = s.skip(i1 + 2);
        if find_dd_from(part1, 0) >= 0 {
            SpecParse::Failed { error: ParseErrorView::AdditionalDoubleDash }
        } else {
            let ins = tokens_from(part0, 0);
            let outs = tokens_from(part1, 0);
            let d = first_dup_from(ins, 0);
            if d < ins.len() {
                SpecParse::Failed {
                    error: ParseErrorView::SymbolDefinedTwice {
                        symbol: ins[d],
                        first: first_index_from(ins, ins[d], 0),
                        second: d,
                    },
                }
            } else {
                let u = first_undefined_from(ins, outs, 0);
                if u < outs.len() {
                    SpecParse::Failed {
                        error: ParseErrorView::SymbolNotDefined { symbol: outs[u], id: u },
                    }
                } else {
                    SpecParse::Parsed {
                        inputs: ins.len() as int,
                        mapping: Seq::new(
                            outs.len(),
                            |k: int| first_index_from(ins, outs[k], 0),
                        ),
                    }
                }
            }
        }
    }
}

/// Whether the character at `i` separates symbols.
fn ws_at(s: &str, i: usize) -> (b: bool)
    requires
        i < s@.len(),
    ensures
        b == is_unicode_whitespace(s@[i as int]),
{
    char_is_whitespace(s.get_char(i))
}

/// The first position of a `--` in `s`, if there is one.
fn find_dd(s: &str, len: usize) -> (r: Option<usize>)
    requires
        len == s@.len(),
    ensures
        match r {
            Option::Some(i) => i as int == find_dd_from(s@, 0) && i + 2 <= len,
            Option::None => find_dd_from(s@, 0) == -1,
        },
{
    if len < 2 {
        return Option::None;
    }
    let mut i: usize = 0;
    while i <= len - 2
        invariant
            len == s@.len(),
            2 <= len,
            i <= len - 1,
            find_dd_from(s@, 0) == find_dd_from(s@, i as int),
        decreases len - i,
    {
        if s.get_char(i) == '-' && s.get_char(i + 1) == '-' {
            return Option::Some(i);
        }
        i = i + 1;
    }
    Option::None
}

/// The end of the symbol starting at `i`.
fn token_end_at(s: &str, len: usize, i: usize) -> (e: usize)
    requires
        len == s@.len(),
        i <= len,
    ensures
        e as int == token_end(s@, i as int),
        i <= e <= len,
{
    let mut j: usize = i;
    while j < len
        invariant
            len == s@.len(),
            i <= j <= len,
            token_end(s@, i as int) == token_end(s@, j as int),
        decreases len - j,
    {
        if ws_at(s, j) {
            return j;
        }
        j = j + 1;
    }
    j
}

/// The symbols of `s`, in order, as slices of it.
fn tokenize<'a>(s: &'a str, len: usize) -> (toks: Vec<&'a str>)
    requires
        len == s@.len(),
    ensures
        toks.deep_view() == tokens_from(s@, 0),
        toks.len() <= len,
{
    proof {
        lemma_tokens_count(s@, 0);
    }
    let mut toks: Vec<&'a str> = Vec::new();
    let mut i: usize = 0;
    proof {
        assert(toks.deep_view() + tokens_from(s@, 0) =~= tokens_from(s@, 0));
    }
    while i < len
        invariant
            len == s@.len(),
            i <= len,
            toks.deep_view() + tokens_from(s@, i as int) == tokens_from(s@, 0),
            toks.len() + tokens_from(s@, i as int).len() == tokens_from(s@, 0).len(),
        decreases len - i,
    {
        if ws_at(s, i) {
            i = i + 1;
        } else {
            let ghost pre = toks.deep_view();
            let e = token_end_at(s, len, i);
            proof {
                lemma_token_end(s@, i as int + 1);
                assert(token_end(s@, i as int) == token_end(s@, i as int + 1));
            }
            let tok = s.substring_char(i, e);
            toks.push(tok);
            proof {
                assert(toks.deep_view() =~= pre.push(tok@));
                assert(tokens_from(s@, i as int) =~= seq![s@.subrange(
                    i as int,
                    e as int,
                )] + tokens_from(s@, e as int));
                assert(toks.deep_view() + tokens_from(s@, e as int) =~= pre + tokens_from(
                    s@,
                    i as int,
                ));
            }
            i = e;
        }
    }
    proof {
        assert(tokens_from(s@, len as int) =~= Seq::<Seq<char>>::empty());
        assert(toks.deep_view() =~= tokens_from(s@, 0));
    }
    toks
}

/// Whether two symbols are the same text.
fn str_eq(a: &str, b: &str) -> (r: bool)
    ensures
        r == (a@ == b@),
{
    let la = a.unicode_len();
    let lb = b.unicode_len();
    if la != lb {
        return false;
    }
    let mut i: usize = 0;
    while i < la
        invariant
            la == a@.len(),
            la == b@.len(),
            i <= la,
            forall|t: int| 0 <= t < i ==> a@[t] == b@[t],
        decreases la - i,
    {
        if s_get(a, i) != s_get(b, i) {
            return false;
        }
        i = i + 1;
    }
    proof {
        assert(a@ =~= b@);
    }
    true
}

/// The character of a symbol at position `i`.
fn s_get(s: &str, i: usize) -> (c: char)
    requires
        i < s@.len(),
    ensures
        c == s@[i as int],
{
    s.get_char(i)
}

/// The first position of symbol `x` in `toks`, or their number.
fn first_index(toks: &Vec<&str>, x: &str) -> (r: usize)
    ensures
        r as int == first_index_from(toks.deep_view(), x@, 0),
        r <= toks.len(),
{
    let ghost dv = toks.deep_view();
    let n = toks.len();
    let mut j: usize = 0;
    while j < n
        invariant
            dv == toks.deep_view(),
            n == toks.len(),
            dv.len() == n,
            j <= n,
            first_index_from(dv, x@, 0) == first_index_from(dv, x@, j as int),
        decreases n - j,
    {
        proof {
            assert(dv[j as int] == toks@[j as int]@);
        }
        if str_eq(toks[j], x) {
            return j;
        }
        j = j + 1;
    }
    n
}

/// A very simple parser for [`StackEffectDiagram`]s.
///
/// The result is exactly what [`spec_parse`] says of the text: the diagram
/// on the accepted notation, the first applicable error otherwise.
pub fn parse(stack_effect: &str) -> (res: Result<StackEffectDiagram, ParseError>)
    ensures
        match spec_parse(stack_effect@) {
            SpecParse::Parsed { inputs, mapping } => match res {
                Result::Ok(d) => d.inputs as int == inputs && d.map_view() == mapping
                    && d.wf(),
                Result::Err(_) => false,
            },
            SpecParse::Failed { error } => match res {
                Result::Ok(_) => false,
                Result::Err(e) => e@ == error,
            },
        },
{
    let ghost sv = stack_effect@;
    // bounds every character count below by the byte length
    let _byte_len = str_byte_len(stack_effect);
    let len = stack_effect.unicode_len();
    let i1 = match find_dd(stack_effect, len) {
        Option::Some(i1) => i1,
        Option::None => {
            return Result::Err(ParseError::MissingDoubleDash);
        },
    };
    let part0 = stack_effect.substring_char(0, i1);
    let part1 = stack_effect.substring_char(i1 + 2, len);
    proof {
        assert(part0@ == sv.take(i1 as int));
        assert(part1@ == sv.skip(i1 as int + 2));
    }
    if let Option::Some(_) = find_dd(part1, len - (i1 + 2)) {
        return Result::Err(ParseError::AdditionalDoubleDash);
    }
    let ins = tokenize(part0, i1);
    let outs = tokenize(part1, len - (i1 + 2));
    let ghost ins_v = tokens_from(part0@, 0);
    let ghost outs_v = tokens_from(part1@, 0);
    // reject a repeated input symbol
    let n_ins = ins.len();
    let mut j: usize = 0;
    while j < n_ins
        invariant
            sv == stack_effect@,
            len == sv.len(),
            i1 as int == find_dd_from(sv, 0),
            i1 + 2 <= len,
            part0@ == sv.take(i1 as int),
            part1@ == sv.skip(i1 as int + 2),
            find_dd_from(part1@, 0) == -1,
            ins_v == tokens_from(part0@, 0),
            n_ins == ins.len(),
            ins.deep_view() == ins_v,
            ins_v.len() == n_ins,
            j <= n_ins,
            first_dup_from(ins_v, 0) == first_dup_from(ins_v, j as int),
        decreases n_ins - j,
    {
        proof {
            assert(ins_v[j as int] == ins@[j as int]@);
        }
        let fi = first_index(&ins, ins[j]);
        if fi < j {
            return Result::Err(
                ParseError::SymbolDefinedTwice {
                    symbol: String::from_str(ins[j]),
                    first: fi,
                    second: j,
                },
            );
        }
        j = j + 1;
    }
    // map each output symbol to the input it names
    let n_outs = outs.len();
    let mut mapping: Vec<usize> = Vec::new();
    let mut k: usize = 0;
    proof {
        assert(crate::graph::cells(mapping@) =~= Seq::new(
            0,
            |t: int| first_index_from(ins_v, outs_v[t], 0),
        ));
    }
    while k < n_outs
        invariant
            sv == stack_effect@,
            len == sv.len(),
            i1 as int == find_dd_from(sv, 0),
            i1 + 2 <= len,
            part0@ == sv.take(i1 as int),
            part1@ == sv.skip(i1 as int + 2),
            find_dd_from(part1@, 0) == -1,
            ins_v == tokens_from(part0@, 0),
            outs_v == tokens_from(part1@, 0),
            first_dup_from(ins_v, 0) == ins_v.len(),
            n_outs == outs.len(),
            outs.deep_view() == outs_v,
            outs_v.len() == n_outs,
            ins.deep_view() == ins_v,
            ins_v.len() == n_ins,
            n_ins == ins.len(),
            k <= n_outs,
            mapping.len() == k,
            first_undefined_from(ins_v, outs_v, 0) == first_undefined_from(
                ins_v,
                outs_v,
                k as int,
            ),
            crate::graph::cells(mapping@) == Seq::new(
                k as nat,
                |t: int| first_index_from(ins_v, outs_v[t], 0),
            ),
        decreases n_outs - k,
    {
        proof {
            assert(outs_v[k as int] == outs@[k as int]@);
        }
        let fi = first_index(&ins, outs[k]);
        if fi >= n_ins {
            return Result::Err(
                ParseError::SymbolNotDefined { symbol: String::from_str(outs[k]), id: k },
            );
        }
        let ghost pre = crate::graph::cells(mapping@);
        mapping.push(fi);
        k = k + 1;
        proof {
            assert(crate::graph::cells(mapping@) =~= pre.push(fi as int));
            assert(crate::graph::cells(mapping@) =~= Seq::new(
                k as nat,
                |t: int| first_index_from(ins_v, outs_v[t], 0),
            ));
        }
    }
    let d = StackEffectDiagram { mapping, inputs: n_ins };
    proof {
        lemma_tokens_count(part0@, 0);
        lemma_tokens_count(part1@, 0);
        lemma_no_undefined(ins_v, outs_v, 0);
        assert(crate::graph::valid_mapping(d.inputs as int, d.map_view())) by {
            assert forall|t: int| 0 <= t < d.map_view().len() implies 0 <= #[trigger] d
                .map_view()[t] < d.inputs as int by {
                assert(d.map_view()[t] == first_index_from(ins_v, outs_v[t], 0));
                lemma_first_index_bounds(ins_v, outs_v[t], 0);
            };
        };
    }
    Result::Ok(d)
}

} // verus!
