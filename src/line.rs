//! The deck-line parser: a character-level state machine over `<count>x<name>`.

use vstd::prelude::*;
use vstd::string::*;

verus! {

/// The state of the line scanner.
#[derive(Clone, Copy, Debug, PartialEq, Eq, Structural)]
pub enum ParserState {
    /// Reading the digits of the quantity.
    Numbering,
    /// Between the quantity and the separator.
    Exing,
    /// Everything after the separator belongs to the name.
    Naming,
}

/// A token that the scanner would have accepted.
#[derive(Clone, Copy, Debug, PartialEq, Eq, Structural)]
pub enum Token {
    Separator,
    Digit,
    Space,
    Tab,
}

pub open spec fn is_digit(c: char) -> bool {
    '0' <= c && c <= '9'
}

pub open spec fn is_blank(c: char) -> bool {
    c == ' ' || c == '\t'
}

/// Unicode `White_Space`, the characters that trimming removes.
pub open spec fn is_white(c: char) -> bool {
    let u = c as u32;
    (9 <= u && u <= 13) || u == 32 || u == 0x85 || u == 0xA0 || u == 0x1680 || (0x2000 <= u
        && u <= 0x200A) || u == 0x2028 || u == 0x2029 || u == 0x202F || u == 0x205F || u == 0x3000
}

/// What the scanner accepts in a state that still expects the separator.
pub open spec fn expected_in(state: ParserState) -> Seq<Token> {
    match state {
        ParserState::Numbering => seq![Token::Separator, Token::Digit, Token::Space, Token::Tab],
        _ => seq![Token::Separator, Token::Space, Token::Tab],
    }
}

/// The scanner's state after a prefix of a line.
pub enum Scan {
    Reading { state: ParserState, digits: Seq<char>, name: Seq<char> },
    Stuck { state: ParserState, obtained: char, column: nat },
}

/// One transition: character `c` sits at zero-based offset `i`.
pub open spec fn step(st: Scan, c: char, i: nat) -> Scan {
    match st {
        Scan::Stuck { .. } => st,
        Scan::Reading { state, digits, name } => match state {
            ParserState::Numbering => if is_digit(c) {
                Scan::Reading { state, digits: digits.push(c), name }
            } else if is_blank(c) {
                Scan::Reading { state: ParserState::Exing, digits, name }
            } else if c == 'x' {
                Scan::Reading { state: ParserState::Naming, digits, name }
            } else {
                Scan::Stuck { state, obtained: c, column: i + 1 }
            },
            ParserState::Exing => if is_blank(c) {
                st
            } else if c == 'x' {
                Scan::Reading { state: ParserState::Naming, digits, name }
            } else {
                Scan::Stuck { state, obtained: c, column: i + 1 }
            },
            ParserState::Naming => Scan::Reading { state, digits, name: name.push(c) },
        },
    }
}

/// The scanner run over a whole line.
pub open spec fn run(s: Seq<char>) -> Scan
    decreases s.len(),
{
    if s.len() == 0 {
        Scan::Reading { state: ParserState::Numbering, digits: Seq::empty(), name: Seq::empty() }
    } else {
        step(run(s.drop_last()), s.last(), (s.len() - 1) as nat)
    }
}

pub open spec fn digit_of(c: char) -> nat {
    (c as u32 - '0' as u32) as nat
}

/// The decimal value of a run of digits.
pub open spec fn digits_value(d: Seq<char>) -> nat
    decreases d.len(),
{
    if d.len() == 0 {
        0
    } else {
        digits_value(d.drop_last()) * 10 + digit_of(d.last())
    }
}

/// Number of leading white characters.
pub open spec fn lead_white(s: Seq<char>) -> nat
    decreases s.len(),
{
    if s.len() == 0 || !is_white(s[0]) {
        0
    } else {
        1 + lead_white(s.drop_first())
    }
}

/// Number of trailing white characters.
pub open spec fn trail_white(s: Seq<char>) -> nat
    decreases s.len(),
{
    if s.len() == 0 || !is_white(s.last()) {
        0
    } else {
        1 + trail_white(s.drop_last())
    }
}

/// `s` without its leading and trailing white characters.
pub open spec fn trim(s: Seq<char>) -> Seq<char> {
    let t = s.subrange(lead_white(s) as int, s.len() as int);
    t.subrange(0, t.len() - trail_white(t))
}

/// The meaning of a line error.
pub enum ErrorModel {
    UnexpectedChar { obtained: char, expected: Seq<Token> },
    UnexpectedEnd { expected: Seq<Token> },
    MissingQuantity,
    QuantityTooLarge,
}

/// What parsing a line yields: a quantity and a card name, or an error at a column.
pub open spec fn parse_spec(s: Seq<char>) -> Result<(nat, Seq<char>), (ErrorModel, nat)> {
    match run(s) {
        Scan::Stuck { state, obtained, column } => Err(
            (ErrorModel::UnexpectedChar { obtained, expected: expected_in(state) }, column),
        ),
        Scan::Reading { state, digits, name } => if state != ParserState::Naming {
            Err((ErrorModel::UnexpectedEnd { expected: expected_in(state) }, s.len() + 1))
        } else if digits.len() == 0 {
            Err((ErrorModel::MissingQuantity, 1))
        } else if digits_value(digits) > u64::MAX {
            Err((ErrorModel::QuantityTooLarge, 1))
        } else {
            Ok((digits_value(digits), trim(name)))
        },
    }
}


/// A parsed deck line: how many copies of which card.
#[derive(Clone, Debug)]
pub struct DeckLine {
    pub quantity: u64,
    pub name: String,
}

/// Why a line could not be parsed.
#[derive(Clone, Debug)]
pub enum Error {
    /// A character that the scanner does not accept in its current state.
    UnexpectedChar { obtained: char, expected: Vec<Token> },
    /// The line ended before the separator.
    UnexpectedEnd { expected: Vec<Token> },
    /// Nothing stood before the separator.
    MissingQuantity,
    /// The quantity does not fit in 64 bits.
    QuantityTooLarge,
}

impl View for Error {
    type V = ErrorModel;

    open spec fn view(&self) -> ErrorModel {
        match self {
            Error::UnexpectedChar { obtained, expected } => ErrorModel::UnexpectedChar {
                obtained: *obtained,
                expected: expected@,
            },
            Error::UnexpectedEnd { expected } => ErrorModel::UnexpectedEnd { expected: expected@ },
            Error::MissingQuantity => ErrorModel::MissingQuantity,
            Error::QuantityTooLarge => ErrorModel::QuantityTooLarge,
        }
    }
}

/// A line error with its 1-based column.
#[derive(Clone, Debug)]
pub struct AtColumn {
    pub error: Error,
    pub column: usize,
}

impl View for AtColumn {
    type V = (ErrorModel, nat);

    open spec fn view(&self) -> (ErrorModel, nat) {
        (self.error@, self.column as nat)
    }
}

/// A line error with its 1-based line number.
#[derive(Clone, Debug)]
pub struct AtRow {
    pub column: AtColumn,
    pub row: usize,
}

impl View for AtRow {
    type V = (ErrorModel, nat, nat);

    open spec fn view(&self) -> (ErrorModel, nat, nat) {
        (self.column.error@, self.column.column as nat, self.row as nat)
    }
}

fn expected_tokens(state: ParserState) -> (r: Vec<Token>)
    ensures
        r@ == expected_in(state),
{
    let r = match state {
        ParserState::Numbering => vec![Token::Separator, Token::Digit, Token::Space, Token::Tab],
        _ => vec![Token::Separator, Token::Space, Token::Tab],
    };
    assert(r@ =~= expected_in(state));
    r
}

/// Whether `c` is white space in the sense of trimming.
pub fn is_white_char(c: char) -> (r: bool)
    ensures
        r == is_white(c),
{
    let u = c as u32;
    (9 <= u && u <= 13) || u == 32 || u == 0x85 || u == 0xA0 || u == 0x1680 || (0x2000 <= u
        && u <= 0x200A) || u == 0x2028 || u == 0x2029 || u == 0x202F || u == 0x205F || u == 0x3000
}

proof fn lemma_lead_white(t: Seq<char>, m: nat)
    requires
        m <= t.len(),
        forall|k: int| 0 <= k < m ==> is_white(#[trigger] t[k]),
        m == t.len() || !is_white(t[m as int]),
    ensures
        lead_white(t) == m,
    decreases m,
{
    if m > 0 {
        lemma_lead_white(t.drop_first(), (m - 1) as nat);
    }
}

proof fn lemma_trail_white(t: Seq<char>, m: nat)
    requires
        m <= t.len(),
        forall|k: int| t.len() - m <= k < t.len() ==> is_white(#[trigger] t[k]),
        m == t.len() || !is_white(t[t.len() - m - 1]),
    ensures
        trail_white(t) == m,
    decreases m,
{
    if m > 0 {
        lemma_trail_white(t.drop_last(), (m - 1) as nat);
    }
}

/// The part of `s` from `from` on, without leading and trailing white space.
pub fn trim_from(s: &str, from: usize) -> (r: String)
    requires
        from <= s@.len(),
    ensures
        r@ == trim(s@.subrange(from as int, s@.len() as int)),
{
    let n = s.unicode_len();
    let mut a = from;
    while a < n && is_white_char(s.get_char(a))
        invariant
            n == s@.len(),
            from <= a <= n,
            forall|k: int| from <= k < a ==> is_white(#[trigger] s@[k]),
        decreases n - a,
    {
        a = a + 1;
    }
    let mut b = n;
    while b > a && is_white_char(s.get_char(b - 1))
        invariant
            n == s@.len(),
            from <= a <= b <= n,
            forall|k: int| b <= k < n ==> is_white(#[trigger] s@[k]),
        decreases b - a,
    {
        b = b - 1;
    }
    proof {
        let t = s@.subrange(from as int, n as int);
        lemma_lead_white(t, (a - from) as nat);
        let u = t.subrange((a - from) as int, t.len() as int);
        assert(u =~= s@.subrange(a as int, n as int));
        lemma_trail_white(u, (n - b) as nat);
        assert(u.subrange(0, u.len() - (n - b)) =~= s@.subrange(a as int, b as int));
    }
    String::from_str(s.substring_char(a, b))
}


/// Once stuck, the scanner stays stuck with the same error.
proof fn lemma_stuck_stays(s: Seq<char>, i: nat, j: nat)
    requires
        i <= j <= s.len(),
        run(s.subrange(0, i as int)) is Stuck,
    ensures
        run(s.subrange(0, j as int)) == run(s.subrange(0, i as int)),
    decreases j - i,
{
    if j > i {
        lemma_stuck_stays(s, i, (j - 1) as nat);
        assert(s.subrange(0, j as int).drop_last() =~= s.subrange(0, j - 1));
    }
}

/// The scan facts that hold after the first `i` characters of `s`.
pub open spec fn scanned(
    s: Seq<char>,
    i: nat,
    state: ParserState,
    ndigits: nat,
    value: nat,
    too_large: bool,
    name_start: nat,
) -> bool {
    match run(s.subrange(0, i as int)) {
        Scan::Reading { state: st, digits, name } => {
            &&& st == state
            &&& digits.len() == ndigits
            &&& (too_large <==> digits_value(digits) > u64::MAX)
            &&& (!too_large ==> value == digits_value(digits))
            &&& name_start <= i
            &&& (state == ParserState::Naming ==> name == s.subrange(name_start as int, i as int))
            &&& (state != ParserState::Naming ==> name.len() == 0)
        },
        Scan::Stuck { .. } => false,
    }
}

/// Parses one deck line `<digits> [blanks] x <name>` into a quantity and a trimmed name.
pub fn parse_line(s: &str) -> (r: Result<DeckLine, AtColumn>)
    requires
        s@.len() < usize::MAX,
    ensures
        match r {
            Ok(l) => parse_spec(s@) == Ok::<(nat, Seq<char>), (ErrorModel, nat)>(
                (l.quantity as nat, l.name@),
            ),
            Err(e) => parse_spec(s@) == Err::<(nat, Seq<char>), (ErrorModel, nat)>(e@),
        },
{
    let n = s.unicode_len();
    let mut state = ParserState::Numbering;
    let mut ndigits: usize = 0;
    let mut value: u64 = 0;
    let mut too_large = false;
    let mut name_start: usize = 0;
    let mut i: usize = 0;
    proof {
        assert(s@.subrange(0, 0) =~= Seq::<char>::empty());
    }
    while i < n
        invariant
            n == s@.len(),
            n < usize::MAX,
            i <= n,
            ndigits <= i,
            scanned(s@, i as nat, state, ndigits as nat, value as nat, too_large, name_start as nat),
        decreases n - i,
    {
        let c = s.get_char(i);
        let ghost before = run(s@.subrange(0, i as int));
        proof {
            assert(s@.subrange(0, i + 1).drop_last() =~= s@.subrange(0, i as int));
            assert(s@.subrange(0, i + 1).last() == c);
        }
        match state {
            ParserState::Numbering => {
                if '0' <= c && c <= '9' {
                    let d = (c as u32 - '0' as u32) as u64;
                    proof {
                        let digits = before->Reading_digits;
                        assert(digits.push(c).drop_last() =~= digits);
                        assert(digits_value(digits.push(c)) == digits_value(digits) * 10
                            + digit_of(c));
                        assert(d == digit_of(c));
                    }
                    if !too_large {
                        if value < 1844674407370955161 || (value == 1844674407370955161 && d <= 5) {
                            value = value * 10 + d;
                        } else {
                            too_large = true;
                        }
                    }
                    ndigits = ndigits + 1;
                } else if c == ' ' || c == '\t' {
                    state = ParserState::Exing;
                } else if c == 'x' {
                    state = ParserState::Naming;
                    name_start = i + 1;
                    proof {
                        assert(s@.subrange(i + 1, i + 1) =~= Seq::<char>::empty());
                        assert(before->Reading_name =~= Seq::<char>::empty());
                    }
                } else {
                    proof {
                        lemma_stuck_stays(s@, (i + 1) as nat, n as nat);
                        assert(s@.subrange(0, n as int) =~= s@);
                    }
                    return Err(
                        AtColumn {
                            error: Error::UnexpectedChar {
                                obtained: c,
                                expected: expected_tokens(state),
                            },
                            column: i + 1,
                        },
                    );
                }
            },
            ParserState::Exing => {
                if c == ' ' || c == '\t' {
                } else if c == 'x' {
                    state = ParserState::Naming;
                    name_start = i + 1;
                    proof {
                        assert(s@.subrange(i + 1, i + 1) =~= Seq::<char>::empty());
                        assert(before->Reading_name =~= Seq::<char>::empty());
                    }
                } else {
                    proof {
                        lemma_stuck_stays(s@, (i + 1) as nat, n as nat);
                        assert(s@.subrange(0, n as int) =~= s@);
                    }
                    return Err(
                        AtColumn {
                            error: Error::UnexpectedChar {
                                obtained: c,
                                expected: expected_tokens(state),
                            },
                            column: i + 1,
                        },
                    );
                }
            },
            ParserState::Naming => {
                proof {
                    assert(s@.subrange(name_start as int, i + 1) =~= s@.subrange(
                        name_start as int,
                        i as int,
                    ).push(c));
                }
            },
        }
        assert(run(s@.subrange(0, i + 1)) == step(before, c, i as nat));
        i = i + 1;
    }
    proof {
        assert(s@.subrange(0, n as int) =~= s@);
    }
    if state != ParserState::Naming {
        return Err(AtColumn { error: Error::UnexpectedEnd { expected: expected_tokens(state) }, column: n + 1 });
    }
    if ndigits == 0 {
        return Err(AtColumn { error: Error::MissingQuantity, column: 1 });
    }
    if too_large {
        return Err(AtColumn { error: Error::QuantityTooLarge, column: 1 });
    }
    let name = trim_from(s, name_start);
    Ok(DeckLine { quantity: value, name })
}


proof fn lemma_run_digits(d: Seq<char>)
    requires
        forall|k: int| 0 <= k < d.len() ==> is_digit(#[trigger] d[k]),
    ensures
        run(d) == (Scan::Reading {
            state: ParserState::Numbering,
            digits: d,
            name: Seq::empty(),
        }),
    decreases d.len(),
{
    if d.len() > 0 {
        lemma_run_digits(d.drop_last());
        assert(d.drop_last().push(d.last()) =~= d);
    } else {
        assert(d =~= Seq::<char>::empty());
    }
}

proof fn lemma_run_blanks(p: Seq<char>, b: Seq<char>, st: ParserState, dg: Seq<char>)
    requires
        st != ParserState::Naming,
        run(p) == (Scan::Reading { state: st, digits: dg, name: Seq::empty() }),
        forall|k: int| 0 <= k < b.len() ==> is_blank(#[trigger] b[k]),
    ensures
        run(p + b) == (Scan::Reading {
            state: if b.len() == 0 {
                st
            } else {
                ParserState::Exing
            },
            digits: dg,
            name: Seq::empty(),
        }),
    decreases b.len(),
{
    if b.len() > 0 {
        lemma_run_blanks(p, b.drop_last(), st, dg);
        assert((p + b).drop_last() =~= p + b.drop_last());
        assert((p + b).last() == b.last());
    } else {
        assert(p + b =~= p);
    }
}

proof fn lemma_run_naming(p: Seq<char>, r: Seq<char>, dg: Seq<char>, nm: Seq<char>)
    requires
        run(p) == (Scan::Reading { state: ParserState::Naming, digits: dg, name: nm }),
    ensures
        run(p + r) == (Scan::Reading { state: ParserState::Naming, digits: dg, name: nm + r }),
    decreases r.len(),
{
    if r.len() > 0 {
        lemma_run_naming(p, r.drop_last(), dg, nm);
        assert((p + r).drop_last() =~= p + r.drop_last());
        assert((p + r).last() == r.last());
        assert((nm + r.drop_last()).push(r.last()) =~= nm + r);
    } else {
        assert(p + r =~= p);
        assert(nm + r =~= nm);
    }
}

/// A well-formed line — digits, then spaces or tabs, then `x`, then any text — parses
/// to the value of the digits and the trimmed text.
pub proof fn lemma_valid_line(d: Seq<char>, b: Seq<char>, r: Seq<char>)
    requires
        d.len() > 0,
        forall|k: int| 0 <= k < d.len() ==> is_digit(#[trigger] d[k]),
        forall|k: int| 0 <= k < b.len() ==> is_blank(#[trigger] b[k]),
        digits_value(d) <= u64::MAX,
    ensures
        parse_spec(d + b + seq!['x'] + r) == Ok::<(nat, Seq<char>), (ErrorModel, nat)>(
            (digits_value(d), trim(r)),
        ),
{
    lemma_run_digits(d);
    lemma_run_blanks(d, b, ParserState::Numbering, d);
    let p = d + b + seq!['x'];
    assert(p.drop_last() =~= d + b);
    assert(run(p) == (Scan::Reading {
        state: ParserState::Naming,
        digits: d,
        name: Seq::empty(),
    }));
    lemma_run_naming(p, r, d, Seq::empty());
    assert(Seq::<char>::empty() + r =~= r);
}

/// The characters that may stand before the separator: digits, then spaces or tabs.
pub open spec fn acceptable_prefix(t: Seq<char>) -> bool {
    &&& forall|k: int| 0 <= k < t.len() ==> is_digit(#[trigger] t[k]) || is_blank(t[k])
    &&& forall|k1: int, k2: int|
        0 <= k1 < k2 < t.len() && is_blank(#[trigger] t[k1]) ==> !is_digit(#[trigger] t[k2])
}

proof fn lemma_run_acceptable(t: Seq<char>)
    requires
        acceptable_prefix(t),
    ensures
        run(t) matches Scan::Reading { state, name, .. } && state != ParserState::Naming
            && name.len() == 0 && (state == ParserState::Numbering <==> forall|k: int|
            0 <= k < t.len() ==> !is_blank(#[trigger] t[k])),
    decreases t.len(),
{
    if t.len() > 0 {
        let u = t.drop_last();
        assert(acceptable_prefix(u)) by {
            assert forall|k1: int, k2: int|
                0 <= k1 < k2 < u.len() && is_blank(#[trigger] u[k1]) implies !is_digit(
                #[trigger] u[k2]) by {
                assert(u[k1] == t[k1] && u[k2] == t[k2]);
            }
            assert forall|k: int| 0 <= k < u.len() implies is_digit(#[trigger] u[k]) || is_blank(
                u[k]) by {
                assert(u[k] == t[k]);
            }
        }
        lemma_run_acceptable(u);
        let c = t.last();
        if is_digit(c) {
            assert forall|k: int| 0 <= k < u.len() implies !is_blank(#[trigger] u[k]) by {
                assert(u[k] == t[k]);
                if is_blank(t[k]) {
                    assert(!is_digit(t[t.len() - 1]));
                }
            }
            assert forall|k: int| 0 <= k < t.len() implies !is_blank(#[trigger] t[k]) by {
                if k < u.len() {
                    assert(u[k] == t[k]);
                }
            }
        } else {
            assert(is_blank(t[t.len() - 1]));
        }
    }
}

/// A line whose first character that is neither allowed before the separator nor the
/// separator itself stands at offset `p` is rejected with that character at column `p + 1`.
pub proof fn lemma_offending_char(s: Seq<char>, p: nat)
    requires
        p < s.len(),
        acceptable_prefix(s.subrange(0, p as int)),
        !acceptable_prefix(s.subrange(0, p as int + 1)),
        s[p as int] != 'x',
    ensures
        parse_spec(s) matches Err((ErrorModel::UnexpectedChar { obtained, .. }, column))
            && obtained == s[p as int] && column == p + 1,
{
    let t = s.subrange(0, p as int);
    let t1 = s.subrange(0, p as int + 1);
    lemma_run_acceptable(t);
    assert(t1.drop_last() =~= t);
    let c = s[p as int];
    if is_blank(c) {
        assert(acceptable_prefix(t1)) by {
            assert forall|k1: int, k2: int|
                0 <= k1 < k2 < t1.len() && is_blank(#[trigger] t1[k1]) implies !is_digit(
                #[trigger] t1[k2]) by {
                assert(t1[k1] == t[k1]);
                if k2 < p {
                    assert(t1[k2] == t[k2]);
                }
            }
            assert forall|k: int| 0 <= k < t1.len() implies is_digit(#[trigger] t1[k])
                || is_blank(t1[k]) by {
                if k < p {
                    assert(t1[k] == t[k]);
                }
            }
        }
    } else if is_digit(c) && run(t)->Reading_state == ParserState::Numbering {
        assert(acceptable_prefix(t1)) by {
            assert forall|k1: int, k2: int|
                0 <= k1 < k2 < t1.len() && is_blank(#[trigger] t1[k1]) implies !is_digit(
                #[trigger] t1[k2]) by {
                assert(t1[k1] == t[k1]);
                assert(!is_blank(t[k1]));
            }
            assert forall|k: int| 0 <= k < t1.len() implies is_digit(#[trigger] t1[k])
                || is_blank(t1[k]) by {
                if k < p {
                    assert(t1[k] == t[k]);
                }
            }
        }
    }
    assert(run(t1) is Stuck);
    lemma_stuck_stays(s, (p + 1) as nat, s.len());
    assert(s.subrange(0, s.len() as int) =~= s);
}

/// A line made only of what may stand before the separator is rejected at the column
/// just past its end.
pub proof fn lemma_missing_separator(s: Seq<char>)
    requires
        acceptable_prefix(s),
    ensures
        parse_spec(s) matches Err((ErrorModel::UnexpectedEnd { .. }, column)) && column == s.len()
            + 1,
{
    lemma_run_acceptable(s);
}


/// The errors of the lines that do not parse, each with its column and 1-based row,
/// in line order.
pub open spec fn failures(ls: Seq<Seq<char>>) -> Seq<(ErrorModel, nat, nat)>
    decreases ls.len(),
{
    if ls.len() == 0 {
        Seq::empty()
    } else {
        let before = failures(ls.drop_last());
        match parse_spec(ls.last()) {
            Ok(_) => before,
            Err((e, column)) => before.push((e, column, ls.len())),
        }
    }
}

/// Parses every line of a deck. The lines are kept in order where all parse; otherwise
/// every failing line is reported, not only the first.
pub fn parse_deck(lines: &Vec<String>) -> (r: Result<Vec<DeckLine>, Vec<AtRow>>)
    requires
        forall|k: int| 0 <= k < lines@.len() ==> (#[trigger] lines@[k])@.len() < usize::MAX,
    ensures
        match r {
            Ok(v) => {
                &&& failures(lines@.map_values(|s: String| s@)).len() == 0
                &&& v@.len() == lines@.len()
                &&& forall|k: int|
                    0 <= k < v@.len() ==> parse_spec(lines@[k]@) == Ok::<
                        (nat, Seq<char>),
                        (ErrorModel, nat),
                    >(((#[trigger] v@[k]).quantity as nat, v@[k].name@))
            },
            Err(es) => {
                &&& es@.len() > 0
                &&& es@.map_values(|e: AtRow| e@) == failures(lines@.map_values(|s: String| s@))
            },
        },
{
    let ghost m = lines@.map_values(|s: String| s@);
    let mut parsed: Vec<DeckLine> = Vec::new();
    let mut errors: Vec<AtRow> = Vec::new();
    let mut i: usize = 0;
    while i < lines.len()
        invariant
            m == lines@.map_values(|s: String| s@),
            forall|k: int| 0 <= k < lines@.len() ==> (#[trigger] lines@[k])@.len() < usize::MAX,
            i <= lines@.len(),
            errors@.map_values(|e: AtRow| e@) == failures(m.subrange(0, i as int)),
            errors@.len() == 0 ==> parsed@.len() == i,
            forall|k: int|
                0 <= k < parsed@.len() ==> parse_spec(lines@[k]@) == Ok::<
                    (nat, Seq<char>),
                    (ErrorModel, nat),
                >(((#[trigger] parsed@[k]).quantity as nat, parsed@[k].name@)),
        decreases lines.len() - i,
    {
        let ghost before = errors@.map_values(|e: AtRow| e@);
        proof {
            assert(m.subrange(0, i + 1).drop_last() =~= m.subrange(0, i as int));
            assert(m.subrange(0, i + 1).last() == lines@[i as int]@);
        }
        match parse_line(lines[i].as_str()) {
            Ok(l) => {
                if errors.len() == 0 {
                    parsed.push(l);
                }
            },
            Err(e) => {
                errors.push(AtRow { column: e, row: i + 1 });
                assert(errors@.map_values(|e: AtRow| e@) =~= before.push(errors@[errors@.len() - 1]@));
            },
        }
        i = i + 1;
    }
    proof {
        assert(m.subrange(0, lines@.len() as int) =~= m);
    }
    if errors.len() == 0 {
        Ok(parsed)
    } else {
        Err(errors)
    }
}

} // verus!
