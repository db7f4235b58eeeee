//! Paths into data trees, and their text form: `foo.bar[10][]`.
use vstd::prelude::*;
use crate::model::Step;
use crate::text::{chars_of, push_char, decimal_string, decimal, is_digit, digits_value, digits_to_usize, digit_char, digit_value, lemma_digits_prefix_le};

verus! {

/// One step of a path: an object field, a list index, or the position just past the
/// end of a list (written `[]`).
#[derive(Debug, PartialEq)]
pub enum PathEntry {
    Field(String),
    Index(usize),
    IndexNew,
}

impl View for PathEntry {
    type V = Step;

    open spec fn view(&self) -> Step {
        match self {
            PathEntry::Field(s) => Step::Field(s@),
            PathEntry::Index(i) => Step::Index(*i as int),
            PathEntry::IndexNew => Step::Append,
        }
    }
}

impl Clone for PathEntry {
    fn clone(&self) -> (r: Self)
        ensures
            r == *self,
    {
        match self {
            PathEntry::Field(s) => PathEntry::Field(s.clone()),
            PathEntry::Index(i) => PathEntry::Index(*i),
            PathEntry::IndexNew => PathEntry::IndexNew,
        }
    }
}

/// The model of a sequence of entries.
pub open spec fn steps(p: Seq<PathEntry>) -> Seq<Step> {
    p.map_values(|e: PathEntry| e@)
}

/// Copies a path.
pub fn copy_path(p: &[PathEntry]) -> (r: Vec<PathEntry>)
    ensures
        r@ == p@,
{
    let mut r: Vec<PathEntry> = Vec::new();
    let n = p.len();
    for i in 0..n
        invariant
            n == p@.len(),
            r@ == p@.take(i as int),
    {
        r.push(p[i].clone());
        assert(r@ =~= p@.take(i + 1));
    }
    assert(p@.take(n as int) =~= p@);
    r
}

// ---------------------------------------------------------------------------
// Text form.

/// What `str::parse::<usize>` accepts: an optional `+`, then one or more ASCII digits
/// whose value fits in a `usize`.
pub open spec fn parse_index(s: Seq<char>) -> Option<nat> {
    let d = unsigned_digits(s);
    if d.len() > 0 && all_digits(d) && digits_value(d) <= usize::MAX {
        Some(digits_value(d))
    } else {
        None
    }
}

/// The text after an optional leading `+`.
pub open spec fn unsigned_digits(s: Seq<char>) -> Seq<char> {
    if s.len() > 0 && s[0] == '+' {
        s.drop_first()
    } else {
        s
    }
}

/// Every character is an ASCII digit.
pub open spec fn all_digits(d: Seq<char>) -> bool {
    forall|i: int| 0 <= i < d.len() ==> is_digit(#[trigger] d[i])
}

/// The state of the path reader after some characters.
pub struct Scan {
    /// Entries read so far.
    pub result: Seq<Step>,
    /// Characters of the entry being read.
    pub current: Seq<char>,
    /// Inside square brackets.
    pub in_index: bool,
    /// The last character read (`'0'` before the first one).
    pub last: char,
    /// How many characters were read.
    pub count: nat,
}

/// The path reader either runs, has rejected the text, or meets an index that
/// `usize` parsing refuses (on which reading cannot go on).
pub enum Scanned {
    Running(Scan),
    Rejected,
    Stuck,
}

pub open spec fn scan_start() -> Scan {
    Scan { result: Seq::empty(), current: Seq::empty(), in_index: false, last: '0', count: 0 }
}

/// Reads one character.
pub open spec fn scan_char(st: Scan, c: char) -> Scanned {
    if st.last == '.' && (c == '[' || c == ']') {
        Scanned::Rejected
    } else if c == '.' {
        Scanned::Running(
            Scan {
                result: if st.count != 0 && st.last != ']' {
                    st.result.push(Step::Field(st.current))
                } else {
                    st.result
                },
                current: Seq::empty(),
                in_index: false,
                last: c,
                count: st.count + 1,
            },
        )
    } else if c == '[' {
        Scanned::Running(
            Scan {
                result: if st.current.len() > 0 {
                    st.result.push(Step::Field(st.current))
                } else {
                    st.result
                },
                current: Seq::empty(),
                in_index: true,
                last: c,
                count: st.count + 1,
            },
        )
    } else if c == ']' {
        if st.current.len() == 0 {
            Scanned::Running(
                Scan {
                    result: st.result.push(Step::Append),
                    current: Seq::empty(),
                    in_index: false,
                    last: c,
                    count: st.count + 1,
                },
            )
        } else {
            match parse_index(st.current) {
                Some(n) => Scanned::Running(
                    Scan {
                        result: st.result.push(Step::Index(n as int)),
                        current: Seq::empty(),
                        in_index: false,
                        last: c,
                        count: st.count + 1,
                    },
                ),
                None => Scanned::Stuck,
            }
        }
    } else if st.in_index && !is_digit(c) {
        Scanned::Rejected
    } else {
        Scanned::Running(Scan { current: st.current.push(c), last: c, count: st.count + 1, ..st })
    }
}

/// Reads a text from the start.
pub open spec fn scan(s: Seq<char>) -> Scanned
    decreases s.len(),
{
    if s.len() == 0 {
        Scanned::Running(scan_start())
    } else {
        match scan(s.drop_last()) {
            Scanned::Running(st) => scan_char(st, s.last()),
            other => other,
        }
    }
}

/// The entries once the whole text is read: a pending field is closed unless the
/// text ends with `]`.
pub open spec fn scan_finish(st: Scan) -> Seq<Step> {
    if st.last != ']' {
        st.result.push(Step::Field(st.current))
    } else {
        st.result
    }
}

/// The path a text denotes, or nothing when the text is rejected.
pub open spec fn decode_spec(s: Seq<char>) -> Option<Seq<Step>> {
    match scan(s) {
        Scanned::Running(st) => Some(scan_finish(st)),
        _ => None,
    }
}

/// Reading the text meets a bracketed number that does not fit in a `usize`
/// (or, outside brackets, text before `]` that is no number).
pub open spec fn decode_stuck(s: Seq<char>) -> bool {
    scan(s) is Stuck
}

/// The text of one step; a field is preceded by `.` unless it comes first.
pub open spec fn piece(s: Step, first: bool) -> Seq<char> {
    match s {
        Step::Field(f) => if first {
            f
        } else {
            seq!['.'] + f
        },
        Step::Index(n) => seq!['['] + decimal(n as nat) + seq![']'],
        Step::Append => seq!['[', ']'],
    }
}

/// The text form of a path.
pub open spec fn encode_spec(p: Seq<Step>) -> Seq<char>
    decreases p.len(),
{
    if p.len() == 0 {
        Seq::empty()
    } else {
        encode_spec(p.drop_last()) + piece(p.last(), p.len() == 1)
    }
}


/// Once reading stops (rejected or stuck), further characters change nothing.
proof fn lemma_scan_halts(s: Seq<char>, k: int)
    requires
        0 <= k <= s.len(),
        !(scan(s.take(k)) is Running),
    ensures
        scan(s) == scan(s.take(k)),
    decreases s.len() - k,
{
    if k < s.len() {
        assert(s.take(k + 1).drop_last() =~= s.take(k));
        lemma_scan_halts(s, k + 1);
    } else {
        assert(s.take(k) =~= s);
    }
}

/// An ASCII decimal digit: a character that reads as a `usize` on its own.
fn is_number(c: &char) -> (r: bool)
    ensures
        r == is_digit(*c),
{
    '0' <= *c && *c <= '9'
}

/// Reads a bracketed number, as `str::parse::<usize>` does.
fn parse_index_exec(s: &String) -> (r: Option<usize>)
    ensures
        match r {
            Some(n) => parse_index(s@) == Some(n as nat),
            None => parse_index(s@) is None,
        },
{
    let cs = chars_of(s.as_str());
    let start: usize = if cs.len() > 0 && cs[0] == '+' {
        1
    } else {
        0
    };
    let ghost d = unsigned_digits(s@);
    assert(d =~= cs@.skip(start as int));
    if start == cs.len() {
        return None;
    }
    let mut j = start;
    while j < cs.len()
        invariant
            start <= j <= cs@.len(),
            d == cs@.skip(start as int),
            cs@ == s@,
            d == unsigned_digits(s@),
            forall|i: int| start <= i < j ==> is_digit(#[trigger] cs@[i]),
        decreases cs@.len() - j,
    {
        let c = cs[j];
        if !('0' <= c && c <= '9') {
            assert(!is_digit(d[j - start]));
            assert(!all_digits(d));
            return None;
        }
        j = j + 1;
    }
    assert forall|i: int| 0 <= i < d.len() implies is_digit(#[trigger] d[i]) by {
        assert(d[i] == cs@[i + start]);
    }
    digits_to_usize(&cs, start)
}

/// A text that reads ends with at least one entry.
pub proof fn lemma_decode_nonempty(s: Seq<char>)
    ensures
        decode_spec(s) matches Some(p) ==> p.len() >= 1,
{
    if s.len() > 0 {
        match scan(s.drop_last()) {
            Scanned::Running(st) => {},
            _ => {},
        }
    }
}

/// Reads the text form of a path. Fields are separated by `.`; `[n]` is the list
/// index `n` and `[]` the position past the end of a list. A `.` directly followed by
/// a bracket, a non-digit inside brackets, a `]` that closes no number and a number
/// too large for a `usize` make the text invalid (`None`).
pub fn decode(path: &str) -> (r: Option<Vec<PathEntry>>)
    ensures
        match r {
            Some(v) => decode_spec(path@) == Some(steps(v@)),
            None => decode_spec(path@) is None,
        },
        decode_stuck(path@) ==> r is None,
        r matches Some(v) ==> v@.len() >= 1,
{
    proof {
        lemma_decode_nonempty(path@);
    }
    match try_decode(path) {
        Ok(r) => r,
        Err(_) => None,
    }
}

/// Like `decode`, but also for texts on which reading gets stuck (`Err`): those
/// with a bracketed number too large for a `usize`, or with `]` closing text that is
/// no number.
pub fn try_decode(path: &str) -> (r: Result<Option<Vec<PathEntry>>, ()>)
    ensures
        match r {
            Ok(Some(v)) => decode_spec(path@) == Some(steps(v@)),
            Ok(None) => decode_spec(path@) is None && !decode_stuck(path@),
            Err(_) => decode_stuck(path@),
        },
{
    let cs = chars_of(path);
    let mut result: Vec<PathEntry> = Vec::new();
    let mut current = String::new();
    let mut is_parsing_index = false;
    let mut last_char = '0';
    let mut i: usize = 0;
    assert(cs@.take(0) =~= Seq::<char>::empty());
    assert(steps(result@) =~= Seq::<Step>::empty());
    while i < cs.len()
        invariant
            i <= cs@.len(),
            cs@ == path@,
            scan(cs@.take(i as int)) == Scanned::Running(
                Scan {
                    result: steps(result@),
                    current: current@,
                    in_index: is_parsing_index,
                    last: last_char,
                    count: i as nat,
                },
            ),
        decreases cs@.len() - i,
    {
        let c = cs[i];
        let ghost st = Scan {
            result: steps(result@),
            current: current@,
            in_index: is_parsing_index,
            last: last_char,
            count: i as nat,
        };
        assert(cs@.take(i + 1).drop_last() =~= cs@.take(i as int));
        assert(cs@.take(i + 1).last() == c);
        assert(scan(cs@.take(i + 1)) == scan_char(st, c));
        if last_char == '.' && (c == '[' || c == ']') {
            proof {
                lemma_scan_halts(cs@, i + 1);
            }
            return Ok(None);
        }
        let prev = last_char;
        last_char = c;
        if c == '.' {
            if i != 0 && prev != ']' {
                result.push(PathEntry::Field(current.clone()));
            }
            current = String::new();
            is_parsing_index = false;
        } else if c == '[' {
            if !current.as_str().is_empty() {
                result.push(PathEntry::Field(current.clone()));
                current = String::new();
            }
            is_parsing_index = true;
        } else if c == ']' {
            is_parsing_index = false;
            if current.as_str().is_empty() {
                result.push(PathEntry::IndexNew);
            } else {
                match parse_index_exec(&current) {
                    Some(n) => {
                        result.push(PathEntry::Index(n));
                    },
                    None => {
                        proof {
                            lemma_scan_halts(cs@, i + 1);
                        }
                        return Err(());
                    },
                }
            }
            current = String::new();
        } else if is_parsing_index && !is_number(&c) {
            proof {
                lemma_scan_halts(cs@, i + 1);
            }
            return Ok(None);
        } else {
            push_char(&mut current, c);
        }
        assert(steps(result@) =~= match scan_char(st, c) {
            Scanned::Running(st2) => st2.result,
            _ => Seq::empty(),
        });
        i = i + 1;
    }
    assert(cs@.take(cs@.len() as int) =~= cs@);
    let ghost fin = Scan {
        result: steps(result@),
        current: current@,
        in_index: is_parsing_index,
        last: last_char,
        count: i as nat,
    };
    if last_char != ']' {
        result.push(PathEntry::Field(current));
    }
    assert(steps(result@) =~= scan_finish(fin));
    Ok(Some(result))
}

/// Writes the text form of a path: fields joined by `.`, indices as `[n]`, and
/// `[]` for the position past the end of a list.
pub fn encode(path: &[PathEntry]) -> (s: String)
    ensures
        s@ == encode_spec(steps(path@)),
{
    let mut s = String::new();
    let n = path.len();
    for i in 0..n
        invariant
            n == path@.len(),
            s@ == encode_spec(steps(path@).take(i as int)),
    {
        let ghost before = s@;
        match &path[i] {
            PathEntry::Field(f) => {
                if i != 0 {
                    push_char(&mut s, '.');
                }
                s.append(f.as_str());
            },
            PathEntry::Index(k) => {
                push_char(&mut s, '[');
                let d = decimal_string(*k as u64);
                s.append(d.as_str());
                push_char(&mut s, ']');
            },
            PathEntry::IndexNew => {
                push_char(&mut s, '[');
                push_char(&mut s, ']');
            },
        }
        assert(steps(path@).take(i + 1).drop_last() =~= steps(path@).take(i as int));
        assert(s@ =~= before + piece(path@[i as int]@, i == 0));
    }
    assert(steps(path@).take(n as int) =~= steps(path@));
    s
}

// ---------------------------------------------------------------------------
// Reading back what was written.

/// A field name that the text form keeps apart: not empty, and free of `.`, `[` and `]`.
pub open spec fn plain_field(f: Seq<char>) -> bool {
    f.len() > 0 && forall|i: int| 0 <= i < f.len() ==> !is_separator(#[trigger] f[i])
}

/// The characters that structure the text form.
pub open spec fn is_separator(c: char) -> bool {
    c == '.' || c == '[' || c == ']'
}

/// A path that its text form denotes unambiguously: not empty, with plain field
/// names and indices that fit in a `usize`.
pub open spec fn plain_path(p: Seq<Step>) -> bool {
    &&& p.len() > 0
    &&& forall|i: int| 0 <= i < p.len() ==> match #[trigger] p[i] {
        Step::Field(f) => plain_field(f),
        Step::Index(n) => 0 <= n <= usize::MAX,
        Step::Append => true,
    }
}

/// Continues reading from a given state.
pub open spec fn scan_from(st: Scanned, s: Seq<char>) -> Scanned
    decreases s.len(),
{
    if s.len() == 0 {
        st
    } else {
        match scan_from(st, s.drop_last()) {
            Scanned::Running(x) => scan_char(x, s.last()),
            other => other,
        }
    }
}

proof fn lemma_scan_concat(a: Seq<char>, b: Seq<char>)
    ensures
        scan(a + b) == scan_from(scan(a), b),
    decreases b.len(),
{
    if b.len() == 0 {
        assert(a + b =~= a);
    } else {
        lemma_scan_concat(a, b.drop_last());
        assert((a + b).drop_last() =~= a + b.drop_last());
        assert((a + b).last() == b.last());
    }
}

proof fn lemma_scan_from_concat(st: Scanned, a: Seq<char>, b: Seq<char>)
    ensures
        scan_from(st, a + b) == scan_from(scan_from(st, a), b),
    decreases b.len(),
{
    if b.len() == 0 {
        assert(a + b =~= a);
    } else {
        lemma_scan_from_concat(st, a, b.drop_last());
        assert((a + b).drop_last() =~= a + b.drop_last());
        assert((a + b).last() == b.last());
    }
}

/// Reading characters that are no separators (and digits inside brackets) only
/// extends the pending entry.
proof fn lemma_scan_chunk(st: Scan, c: Seq<char>)
    requires
        forall|i: int| 0 <= i < c.len() ==> !is_separator(#[trigger] c[i]),
        st.in_index ==> forall|i: int| 0 <= i < c.len() ==> is_digit(#[trigger] c[i]),
    ensures
        scan_from(Scanned::Running(st), c) == Scanned::Running(
            Scan {
                current: st.current + c,
                last: if c.len() == 0 {
                    st.last
                } else {
                    c.last()
                },
                count: st.count + c.len(),
                ..st
            },
        ),
    decreases c.len(),
{
    if c.len() == 0 {
        assert(st.current + c =~= st.current);
    } else {
        let c0 = c.drop_last();
        lemma_scan_chunk(st, c0);
        let mid = Scan {
            current: st.current + c0,
            last: if c0.len() == 0 {
                st.last
            } else {
                c0.last()
            },
            count: st.count + c0.len(),
            ..st
        };
        assert(scan_from(Scanned::Running(st), c0) == Scanned::Running(mid));
        let x = c[c.len() - 1];
        assert(!is_separator(x));
        if st.in_index {
            assert(is_digit(x));
        }
        assert((st.current + c0).push(x) =~= st.current + c);
        assert(scan_char(mid, x) == Scanned::Running(
            Scan { current: st.current + c, last: x, count: st.count + c.len(), ..st },
        ));
    }
}

proof fn lemma_digit_char(d: nat)
    requires
        d < 10,
    ensures
        is_digit(digit_char(d)),
        digit_value(digit_char(d)) == d,
{
    assert('0' as u32 == 48);
}

/// The decimal form is a non-empty string of digits that reads back as the number.
pub proof fn lemma_decimal(n: nat)
    ensures
        decimal(n).len() > 0,
        all_digits(decimal(n)),
        digits_value(decimal(n)) == n,
    decreases n,
{
    lemma_digit_char((n % 10) as nat);
    if n < 10 {
        lemma_digit_char(n);
        assert(decimal(n).drop_last() =~= Seq::<char>::empty());
        assert(decimal(n).last() == digit_char(n));
        assert(digits_value(Seq::<char>::empty()) == 0);
        assert(digits_value(decimal(n)) == digits_value(decimal(n).drop_last()) * 10 + digit_value(
            decimal(n).last(),
        ));
    } else {
        lemma_decimal(n / 10);
        assert(decimal(n).drop_last() =~= decimal(n / 10));
        assert(decimal(n).last() == digit_char((n % 10) as nat));
        assert(digits_value(decimal(n)) == digits_value(decimal(n / 10)) * 10 + digit_value(
            digit_char((n % 10) as nat),
        ));
        assert((n / 10) * 10 + n % 10 == n) by (nonlinear_arith);
        assert forall|i: int| 0 <= i < decimal(n).len() implies is_digit(#[trigger] decimal(n)[i]) by {
            if i < decimal(n).len() - 1 {
                assert(decimal(n)[i] == decimal(n / 10)[i]);
            }
        }
    }
}

proof fn lemma_scan_one(st: Scanned, c: char)
    ensures
        scan_from(st, seq![c]) == match st {
            Scanned::Running(x) => scan_char(x, c),
            other => other,
        },
{
    assert(seq![c].drop_last() =~= Seq::<char>::empty());
    assert(scan_from(st, Seq::<char>::empty()) == st);
    assert(seq![c].last() == c);
}

proof fn lemma_encode_len(p: Seq<Step>)
    requires
        p.len() > 0,
        p[0] is Field ==> (p[0]->Field_0).len() > 0,
    ensures
        encode_spec(p).len() > 0,
    decreases p.len(),
{
    if p.len() > 1 {
        assert(p.drop_last()[0] == p[0]);
        lemma_encode_len(p.drop_last());
    }
}

/// The reader state after the text form of the first `k` steps of a plain path.
pub open spec fn scan_after(p: Seq<Step>, k: int) -> Scan {
    if k > 0 && p[k - 1] is Field {
        Scan {
            result: p.take(k - 1),
            current: p[k - 1]->Field_0,
            in_index: false,
            last: (p[k - 1]->Field_0).last(),
            count: encode_spec(p.take(k)).len(),
        }
    } else {
        Scan {
            result: p.take(k),
            current: Seq::empty(),
            in_index: false,
            last: if k > 0 {
                ']'
            } else {
                '0'
            },
            count: encode_spec(p.take(k)).len(),
        }
    }
}

proof fn lemma_scan_prefix(p: Seq<Step>, k: int)
    requires
        plain_path(p),
        0 <= k <= p.len(),
    ensures
        scan(encode_spec(p.take(k))) == Scanned::Running(scan_after(p, k)),
    decreases k,
{
    if k == 0 {
        assert(encode_spec(p.take(0)) =~= Seq::<char>::empty());
        assert(p.take(0) =~= Seq::<Step>::empty());
    } else {
        lemma_scan_prefix(p, k - 1);
        let prev = encode_spec(p.take(k - 1));
        let s = p[k - 1];
        assert(p.take(k).drop_last() =~= p.take(k - 1));
        assert(p.take(k).last() == s);
        assert(encode_spec(p.take(k)) == prev + piece(s, k == 1));
        lemma_scan_concat(prev, piece(s, k == 1));
        match s {
            Step::Field(f) => lemma_piece_field(p, k, s, f),
            Step::Index(n) => lemma_piece_index(p, k, s, n),
            Step::Append => lemma_piece_append(p, k, s),
        }
    }
}

proof fn lemma_piece_field(p: Seq<Step>, k: int, s: Step, f: Seq<char>)
    requires
        plain_path(p),
        1 <= k <= p.len(),
        p[k - 1] == s,
        s == Step::Field(f),
    ensures
        scan_from(Scanned::Running(scan_after(p, k - 1)), piece(s, k == 1)) == Scanned::Running(
            scan_after(p, k),
        ),
{
    let st = scan_after(p, k - 1);
    let prev = encode_spec(p.take(k - 1));
    assert(p.take(k).drop_last() =~= p.take(k - 1));
    assert(p.take(k).last() == s);
    assert(encode_spec(p.take(k)) == prev + piece(s, k == 1));
    let _ = p[k - 1];
    if k > 1 {
        let _ = p[k - 2];
    }
    assert(plain_field(f));
    if k == 1 {
        lemma_scan_chunk(st, f);
        assert(Seq::<char>::empty() + f =~= f);
    } else {
        lemma_scan_from_concat(Scanned::Running(st), seq!['.'], f);
        assert(seq!['.'] =~= Seq::<char>::empty().push('.'));
        let st1 = Scan {
            result: p.take(k - 1),
            current: Seq::empty(),
            in_index: false,
            last: '.',
            count: st.count + 1,
        };
        if p[k - 2] is Field {
            let g = p[k - 2]->Field_0;
            assert(plain_field(g));
            assert(!is_separator(g[g.len() - 1]));
            assert(p.take(k - 2).push(Step::Field(g)) =~= p.take(k - 1));
        }
        lemma_scan_one(Scanned::Running(st), '.');
        assert(st.count != 0) by {
            lemma_encode_len(p.take(k - 1));
        }
        assert(scan_from(Scanned::Running(st), seq!['.']) == Scanned::Running(st1));
        lemma_scan_chunk(st1, f);
        assert(Seq::<char>::empty() + f =~= f);
    }
}

proof fn lemma_piece_index(p: Seq<Step>, k: int, s: Step, n: int)
    requires
        plain_path(p),
        1 <= k <= p.len(),
        p[k - 1] == s,
        s == Step::Index(n),
    ensures
        scan_from(Scanned::Running(scan_after(p, k - 1)), piece(s, k == 1)) == Scanned::Running(
            scan_after(p, k),
        ),
{
    let st = scan_after(p, k - 1);
    let prev = encode_spec(p.take(k - 1));
    assert(p.take(k).drop_last() =~= p.take(k - 1));
    assert(p.take(k).last() == s);
    assert(encode_spec(p.take(k)) == prev + piece(s, k == 1));
    let _ = p[k - 1];
    if k > 1 {
        let _ = p[k - 2];
    }
    lemma_decimal(n as nat);
    let d = decimal(n as nat);
    assert(piece(s, k == 1) =~= seq!['['] + d + seq![']']);
    lemma_scan_from_concat(Scanned::Running(st), seq!['['] + d, seq![']']);
    lemma_scan_from_concat(Scanned::Running(st), seq!['['], d);
    assert(seq!['['] =~= Seq::<char>::empty().push('['));
    assert(seq![']'] =~= Seq::<char>::empty().push(']'));
    let st1 = Scan {
        result: p.take(k - 1),
        current: Seq::empty(),
        in_index: true,
        last: '[',
        count: st.count + 1,
    };
    if k > 1 && p[k - 2] is Field {
        let g = p[k - 2]->Field_0;
        assert(plain_field(g));
        assert(!is_separator(g[g.len() - 1]));
        assert(p.take(k - 2).push(Step::Field(g)) =~= p.take(k - 1));
    }
    lemma_scan_one(Scanned::Running(st), '[');
    assert(scan_from(Scanned::Running(st), seq!['[']) == Scanned::Running(st1));
    assert forall|i: int| 0 <= i < d.len() implies !is_separator(#[trigger] d[i]) by {
        assert(is_digit(d[i]));
    }
    lemma_scan_chunk(st1, d);
    assert(Seq::<char>::empty() + d =~= d);
    assert(unsigned_digits(d) == d) by {
        assert(is_digit(d[0]));
    }
    assert(parse_index(d) == Some(n as nat));
    let st2 = Scan { current: d, last: d.last(), count: st1.count + d.len(), ..st1 };
    assert(scan_from(Scanned::Running(st), seq!['['] + d) == Scanned::Running(st2));
    lemma_scan_one(Scanned::Running(st2), ']');
    assert(p.take(k - 1).push(Step::Index(n)) =~= p.take(k));
}

proof fn lemma_piece_append(p: Seq<Step>, k: int, s: Step)
    requires
        plain_path(p),
        1 <= k <= p.len(),
        p[k - 1] == s,
        s == Step::Append,
    ensures
        scan_from(Scanned::Running(scan_after(p, k - 1)), piece(s, k == 1)) == Scanned::Running(
            scan_after(p, k),
        ),
{
    let st = scan_after(p, k - 1);
    let prev = encode_spec(p.take(k - 1));
    assert(p.take(k).drop_last() =~= p.take(k - 1));
    assert(p.take(k).last() == s);
    assert(encode_spec(p.take(k)) == prev + piece(s, k == 1));
    let _ = p[k - 1];
    if k > 1 {
        let _ = p[k - 2];
    }
    assert(piece(s, k == 1) =~= seq!['['] + seq![']']);
    lemma_scan_from_concat(Scanned::Running(st), seq!['['], seq![']']);
    assert(seq!['['] =~= Seq::<char>::empty().push('['));
    assert(seq![']'] =~= Seq::<char>::empty().push(']'));
    if k > 1 && p[k - 2] is Field {
        let g = p[k - 2]->Field_0;
        assert(plain_field(g));
        assert(!is_separator(g[g.len() - 1]));
        assert(p.take(k - 2).push(Step::Field(g)) =~= p.take(k - 1));
    }
    lemma_scan_one(Scanned::Running(st), '[');
    let st1 = Scan {
        result: p.take(k - 1),
        current: Seq::empty(),
        in_index: true,
        last: '[',
        count: st.count + 1,
    };
    assert(scan_from(Scanned::Running(st), seq!['[']) == Scanned::Running(st1));
    lemma_scan_one(Scanned::Running(st1), ']');
    assert(p.take(k - 1).push(Step::Append) =~= p.take(k));
}

/// Reading back the text form of a plain path gives the path itself.
pub proof fn law_decode_encode(p: Seq<Step>)
    requires
        plain_path(p),
    ensures
        decode_spec(encode_spec(p)) == Some(p),
        !decode_stuck(encode_spec(p)),
{
    lemma_scan_prefix(p, p.len() as int);
    assert(p.take(p.len() as int) =~= p);
    let _ = p[p.len() - 1];
    if p[p.len() - 1] is Field {
        assert(p.take(p.len() - 1).push(p[p.len() - 1]) =~= p);
        let f = p[p.len() - 1]->Field_0;
        assert(plain_field(f));
        assert(!is_separator(f[f.len() - 1]));
    }
}

/// The text form is built step by step: nothing for the empty path; then a field
/// as it is when it comes first and after a `.` otherwise, an index as `[n]` with `n`
/// in decimal, and `[]` for the position past the end of a list.
pub proof fn law_encode_steps(p: Seq<Step>, s: Step)
    ensures
        encode_spec(Seq::empty()) == Seq::<char>::empty(),
        encode_spec(p.push(s)) == encode_spec(p) + match s {
            Step::Field(f) => if p.len() == 0 {
                f
            } else {
                seq!['.'] + f
            },
            Step::Index(n) => seq!['['] + decimal(n as nat) + seq![']'],
            Step::Append => seq!['[', ']'],
        },
{
    assert(p.push(s).drop_last() =~= p);
}

/// A decimal numeral without leading zeros: `0`, or digits that do not start with `0`.
pub open spec fn canonical_numeral(d: Seq<char>) -> bool {
    d.len() > 0 && all_digits(d) && (d.len() == 1 || d[0] != '0')
}

/// One piece of a canonical text at a position: a plain field name (preceded by
/// `.` unless it comes first), `[]`, or a canonical numeral in brackets that fits in a `usize`.
pub open spec fn canonical_token(t: Seq<char>, position: int) -> bool {
    let first = position == 0;
    ||| (first && plain_field(t))
    ||| (!first && t.len() > 1 && t[0] == '.' && plain_field(t.drop_first()))
    ||| t == seq!['[', ']']
    ||| (t.len() > 2 && t[0] == '[' && t.last() == ']' && canonical_numeral(t.subrange(1, t.len() - 1))
        && digits_value(t.subrange(1, t.len() - 1)) <= usize::MAX)
}

/// The step that a canonical piece stands for.
pub open spec fn token_step(t: Seq<char>, position: int) -> Step {
    let first = position == 0;
    if t == seq!['[', ']'] {
        Step::Append
    } else if t.len() > 0 && t[0] == '[' {
        Step::Index(digits_value(t.subrange(1, t.len() - 1)) as int)
    } else if first {
        Step::Field(t)
    } else {
        Step::Field(t.drop_first())
    }
}

/// A non-empty sequence of canonical pieces.
pub open spec fn canonical_tokens(ts: Seq<Seq<char>>) -> bool {
    ts.len() > 0 && forall|i: int| 0 <= i < ts.len() ==> #[trigger] canonical_token(ts[i], i)
}

/// The pieces written one after the other.
pub open spec fn join(ts: Seq<Seq<char>>) -> Seq<char>
    decreases ts.len(),
{
    if ts.len() == 0 {
        Seq::empty()
    } else {
        join(ts.drop_last()) + ts.last()
    }
}

/// The steps that the pieces stand for.
pub open spec fn token_steps(ts: Seq<Seq<char>>) -> Seq<Step> {
    Seq::new(ts.len(), |i: int| token_step(ts[i], i))
}

/// A digit is the decimal form of its value.
proof fn lemma_digit_roundtrip(c: char)
    requires
        is_digit(c),
    ensures
        digit_value(c) < 10,
        digit_char(digit_value(c)) == c,
{
    assert('0' as u32 == 48);
    assert('9' as u32 == 57);
    let k = digit_value(c);
    lemma_digit_char(k);
    let d = digit_char(k);
    assert((d as u32) == (c as u32));
    assert((d as u32) as char == d);
    assert((c as u32) as char == c);
}

/// A canonical numeral is the decimal form of its value.
proof fn lemma_numeral_roundtrip(d: Seq<char>)
    requires
        canonical_numeral(d),
    ensures
        decimal(digits_value(d)) == d,
    decreases d.len(),
{
    let c = d.last();
    lemma_digit_roundtrip(c);
    if d.len() == 1 {
        assert(d.drop_last() =~= Seq::<char>::empty());
        assert(digits_value(Seq::<char>::empty()) == 0);
        assert(digits_value(d) == digit_value(c));
        assert(d =~= seq![c]);
    } else {
        let e = d.drop_last();
        assert(canonical_numeral(e)) by {
            assert forall|i: int| 0 <= i < e.len() implies is_digit(#[trigger] e[i]) by {
                assert(e[i] == d[i]);
            }
        }
        lemma_numeral_roundtrip(e);
        lemma_digit_roundtrip(e[0]);
        lemma_digits_prefix_le(e, 1);
        assert(e.take(1).drop_last() =~= Seq::<char>::empty());
        assert(digits_value(Seq::<char>::empty()) == 0);
        assert(e.take(1).last() == e[0]);
        assert(digits_value(e.take(1)) == digit_value(e[0]));
        assert(digit_value(e[0]) != 0);
        let a = digits_value(e);
        let b = digit_value(c);
        assert(a >= 1);
        assert(digits_value(d) == a * 10 + b);
        assert((a * 10 + b) / 10 == a && (a * 10 + b) % 10 == b) by (nonlinear_arith)
            requires
                b < 10,
        ;
        assert(d =~= e.push(c));
    }
}

/// Each canonical piece is the text form of the step it stands for.
proof fn lemma_token_piece(t: Seq<char>, position: int)
    requires
        canonical_token(t, position),
    ensures
        piece(token_step(t, position), position == 0) == t,
        match token_step(t, position) {
            Step::Field(f) => plain_field(f),
            Step::Index(n) => 0 <= n <= usize::MAX,
            Step::Append => true,
        },
{
    if t == seq!['[', ']'] {
    } else if t.len() > 0 && t[0] == '[' {
        assert(!plain_field(t)) by {
            assert(is_separator(t[0]));
        }
        let d = t.subrange(1, t.len() - 1);
        lemma_numeral_roundtrip(d);
        assert(t =~= seq!['['] + d + seq![']']);
    } else if position == 0 {
    } else {
        assert(t =~= seq!['.'] + t.drop_first());
    }
}

/// The steps of canonical pieces form a plain path whose text form is the pieces
/// joined.
proof fn lemma_tokens_encode(ts: Seq<Seq<char>>)
    requires
        forall|i: int| 0 <= i < ts.len() ==> #[trigger] canonical_token(ts[i], i),
    ensures
        encode_spec(token_steps(ts)) == join(ts),
        forall|i: int| 0 <= i < ts.len() ==> match #[trigger] token_steps(ts)[i] {
            Step::Field(f) => plain_field(f),
            Step::Index(n) => 0 <= n <= usize::MAX,
            Step::Append => true,
        },
    decreases ts.len(),
{
    if ts.len() > 0 {
        let u = ts.drop_last();
        assert forall|i: int| 0 <= i < u.len() implies #[trigger] canonical_token(u[i], i) by {
            assert(canonical_token(ts[i], i));
        }
        lemma_tokens_encode(u);
        assert(token_steps(ts).drop_last() =~= token_steps(u));
        let k = ts.len() - 1;
        assert(canonical_token(ts[k], k));
        lemma_token_piece(ts[k], k);
        assert forall|i: int| 0 <= i < ts.len() implies match #[trigger] token_steps(ts)[i] {
            Step::Field(f) => plain_field(f),
            Step::Index(n) => 0 <= n <= usize::MAX,
            Step::Append => true,
        } by {
            if i < k {
                assert(token_steps(ts)[i] == token_steps(u)[i]);
            }
        }
    }
}

/// Reading a canonical text and writing the path back gives the same text: the
/// text reads as the steps its pieces stand for, and their text form is the text.
pub proof fn law_encode_decode(ts: Seq<Seq<char>>)
    requires
        canonical_tokens(ts),
    ensures
        decode_spec(join(ts)) == Some(token_steps(ts)),
        encode_spec(token_steps(ts)) == join(ts),
{
    lemma_tokens_encode(ts);
    assert(plain_path(token_steps(ts)));
    law_decode_encode(token_steps(ts));
}

} // verus!
