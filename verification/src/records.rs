use vstd::prelude::*;

use crate::text::{
    chars_of, decimal, decimal_string, digit_char, digits_value, is_digit, is_whitespace, parse_u32,
    parse_u32_range, trim, trim_end, trim_start, trim_range, unsigned_digits,
};

verus! {

/// The set of counter pairs `(lower, higher)` already turned into an output.
#[derive(Debug)]
pub struct ProcessedPairs {
    pairs: Vec<(u32, u32)>,
}

impl View for ProcessedPairs {
    type V = Set<(u32, u32)>;

    closed spec fn view(&self) -> Set<(u32, u32)> {
        Set::new(|p: (u32, u32)| self.pairs@.contains(p))
    }
}

impl ProcessedPairs {
    /// The list holds each pair once.
    #[verifier::type_invariant]
    spec fn inv(&self) -> bool {
        self.pairs@.no_duplicates()
    }

    /// No pair yet.
    pub fn new() -> (r: Self)
        ensures
            r@ == Set::<(u32, u32)>::empty(),
    {
        let r = ProcessedPairs { pairs: Vec::new() };
        assert(r@ =~= Set::<(u32, u32)>::empty());
        r
    }

    /// Whether the pair `(a, b)` is in the set.
    pub fn contains(&self, a: u32, b: u32) -> (r: bool)
        ensures
            r == self@.contains((a, b)),
    {
        let mut i: usize = 0;
        while i < self.pairs.len()
            invariant
                i <= self.pairs@.len(),
                forall|j: int| 0 <= j < i ==> self.pairs@[j] != (a, b),
            decreases self.pairs@.len() - i,
        {
            let (x, y) = self.pairs[i];
            if x == a && y == b {
                assert(self.pairs@[i as int] == (a, b));
                return true;
            }
            i += 1;
        }
        false
    }

    /// Add the pair `(a, b)`.
    pub fn insert(&mut self, a: u32, b: u32)
        ensures
            final(self)@ == old(self)@.insert((a, b)),
    {
        proof {
            use_type_invariant(&*self);
        }
        if !self.contains(a, b) {
            let ghost before = self.pairs@;
            let mut pairs = Vec::new();
            std::mem::swap(&mut pairs, &mut self.pairs);
            pairs.push((a, b));
            proof {
                assert(pairs@ == before.push((a, b)));
                assert forall|i: int, j: int|
                    0 <= i < pairs@.len() && 0 <= j < pairs@.len() && i != j implies pairs@[i]
                    != pairs@[j] by {
                    if i == before.len() {
                        assert(!before.contains((a, b)));
                        assert(before[j] == pairs@[j]);
                    } else if j == before.len() {
                        assert(!before.contains((a, b)));
                        assert(before[i] == pairs@[i]);
                    }
                }
                assert forall|p: (u32, u32)| pairs@.contains(p) <==> (before.contains(p) || p == (
                a, b)) by {
                    if pairs@.contains(p) {
                        let k = choose|k: int| 0 <= k < pairs@.len() && pairs@[k] == p;
                        if k < before.len() {
                            assert(before[k] == p);
                        }
                    }
                    if before.contains(p) {
                        let k = choose|k: int| 0 <= k < before.len() && before[k] == p;
                        assert(pairs@[k] == p);
                    }
                    if p == (a, b) {
                        assert(pairs@[before.len() as int] == p);
                    }
                }
            }
            self.pairs = pairs;
        }
        assert(self@ =~= old(self)@.insert((a, b)));
    }

    /// Number of pairs.
    pub fn len(&self) -> (n: usize)
        ensures
            n == self@.len(),
    {
        proof {
            use_type_invariant(self);
            self.lemma_view_len();
        }
        self.pairs.len()
    }

    /// The stored list has no repeats, so its length is the size of the set.
    proof fn lemma_view_len(&self)
        requires
            self.pairs@.no_duplicates(),
        ensures
            self.pairs@.len() == self@.len(),
    {
        assert(self@ =~= self.pairs@.to_set());
        self.pairs@.unique_seq_to_set();
    }
}


/// The smaller and the larger of two counters.
pub open spec fn ordered(a: u32, b: u32) -> (u32, u32) {
    if a <= b {
        (a, b)
    } else {
        (b, a)
    }
}

/// The line that records a processed pair: `LOWER,HIGHER` and a newline.
pub open spec fn record_line_spec(a: u32, b: u32) -> Seq<char> {
    let (lo, hi) = ordered(a, b);
    decimal(lo as nat) + ","@ + decimal(hi as nat) + "\n"@
}

/// The record line of a processed pair, as `writeln!(f, "{},{}", lower, higher)` writes it.
pub fn record_line(a: u32, b: u32) -> (r: String)
    ensures
        r@ == record_line_spec(a, b),
{
    let lo = if a <= b { a } else { b };
    let hi = if a <= b { b } else { a };
    let mut r = decimal_string(lo as u64);
    r.append(",");
    let h = decimal_string(hi as u64);
    r.append(h.as_str());
    r.append("\n");
    r
}

/// The pieces of `s` between `\n` characters (at least one piece).
pub open spec fn split_lines(s: Seq<char>) -> Seq<Seq<char>>
    decreases s.len(),
{
    if s.len() == 0 {
        seq![Seq::<char>::empty()]
    } else {
        let p = split_lines(s.drop_last());
        if s.last() == '\n' {
            p.push(Seq::<char>::empty())
        } else {
            p.update(p.len() - 1, p.last().push(s.last()))
        }
    }
}

/// Number of commas in `s`.
pub open spec fn comma_count(s: Seq<char>) -> nat
    decreases s.len(),
{
    if s.len() == 0 {
        0
    } else {
        comma_count(s.drop_last()) + if s.last() == ',' {
            1nat
        } else {
            0nat
        }
    }
}

/// Index of the first comma in `s`, or -1.
pub open spec fn first_comma(s: Seq<char>) -> int
    decreases s.len(),
{
    if s.len() == 0 {
        -1
    } else if first_comma(s.drop_last()) >= 0 {
        first_comma(s.drop_last())
    } else if s.last() == ',' {
        s.len() - 1
    } else {
        -1
    }
}

/// The pair a record line holds: the trimmed line splits at its only comma
/// into two numbers (each trimmed), given as `(lower, higher)`.
pub open spec fn record_of_line(line: Seq<char>) -> Option<(u32, u32)> {
    let t = trim(line);
    if comma_count(t) == 1 {
        let k = first_comma(t);
        match (parse_u32(trim(t.take(k))), parse_u32(trim(t.skip(k + 1)))) {
            (Some(a), Some(b)) => Some(ordered(a, b)),
            _ => None,
        }
    } else {
        None
    }
}

/// The pairs held by some line of a record file.
pub open spec fn records_of(content: Seq<char>) -> Set<(u32, u32)> {
    Set::new(
        |p: (u32, u32)|
            exists|i: int|
                0 <= i < split_lines(content).len() && record_of_line(#[trigger] split_lines(
                    content,
                )[i]) == Some(p),
    )
}

/// The pair on the line `cs[lo..hi]`, if it holds one.
fn line_record(cs: &Vec<char>, lo: usize, hi: usize) -> (r: Option<(u32, u32)>)
    requires
        lo <= hi <= cs@.len(),
    ensures
        r == record_of_line(cs@.subrange(lo as int, hi as int)),
{
    let ghost line = cs@.subrange(lo as int, hi as int);
    let (a, b) = trim_range(cs, lo, hi);
    let ghost t = cs@.subrange(a as int, b as int);
    assert(t == trim(line));
    let mut count: usize = 0;
    let mut k: usize = b;
    let mut i: usize = a;
    assert(cs@.subrange(a as int, a as int) =~= Seq::<char>::empty());
    while i < b
        invariant
            a <= i <= b <= cs@.len(),
            t == cs@.subrange(a as int, b as int),
            count == comma_count(cs@.subrange(a as int, i as int)),
            count <= i - a,
            first_comma(cs@.subrange(a as int, i as int)) == (if count > 0 {
                k - a
            } else {
                -1
            }),
            count > 0 ==> a <= k < i,
        decreases b - i,
    {
        let ghost pre = cs@.subrange(a as int, i as int);
        let ghost next = cs@.subrange(a as int, i + 1);
        assert(next.drop_last() =~= pre);
        assert(next.last() == cs@[i as int]);
        if cs[i] == ',' {
            if count == 0 {
                k = i;
            }
            count = count + 1;
        }
        i += 1;
    }
    assert(cs@.subrange(a as int, b as int) =~= t);
    if count != 1 {
        return None;
    }
    assert(t.take(k - a) =~= cs@.subrange(a as int, k as int));
    assert(t.skip(k - a + 1) =~= cs@.subrange(k + 1, b as int));
    let (a1, b1) = trim_range(cs, a, k);
    let (a2, b2) = trim_range(cs, k + 1, b);
    match (parse_u32_range(cs, a1, b1), parse_u32_range(cs, a2, b2)) {
        (Some(x), Some(y)) => {
            if x <= y {
                Some((x, y))
            } else {
                Some((y, x))
            }
        },
        _ => None,
    }
}

/// Parse the contents of the processed-pairs record file: each line
/// `A,B` names a pair, stored as `(lower, higher)`; other lines are skipped.
pub fn parse_processed_pairs(content: &str) -> (r: ProcessedPairs)
    ensures
        r@ == records_of(content@),
{
    let cs = chars_of(content);
    let n = cs.len();
    let mut r = ProcessedPairs::new();
    let mut start: usize = 0;
    let mut i: usize = 0;
    let ghost mut done: Seq<Seq<char>> = Seq::empty();
    assert(cs@.take(0) =~= Seq::<char>::empty());
    assert(cs@.subrange(0, 0) =~= Seq::<char>::empty());
    while i < n
        invariant
            n == cs@.len(),
            start <= i <= n,
            split_lines(cs@.take(i as int)) == done.push(cs@.subrange(start as int, i as int)),
            r@ == Set::new(
                |p: (u32, u32)|
                    exists|j: int| 0 <= j < done.len() && record_of_line(#[trigger] done[j]) == Some(p),
            ),
        decreases n - i,
    {
        let ghost pre = cs@.take(i as int);
        assert(cs@.take(i + 1).drop_last() =~= pre);
        assert(cs@.take(i + 1).last() == cs@[i as int]);
        if cs[i] == '\n' {
            let rec = line_record(&cs, start, i);
            let ghost seg = cs@.subrange(start as int, i as int);
            let ghost old_r = r@;
            match rec {
                Some((x, y)) => r.insert(x, y),
                None => {},
            }
            proof {
                let nd = done.push(seg);
                assert(split_lines(cs@.take(i + 1)) == done.push(seg).push(Seq::<char>::empty()));
                assert forall|p: (u32, u32)| r@.contains(p) <==> (exists|j: int|
                    0 <= j < nd.len() && record_of_line(#[trigger] nd[j]) == Some(p)) by {
                    if r@.contains(p) {
                        if old_r.contains(p) {
                            let j = choose|j: int| 0 <= j < done.len() && record_of_line(#[trigger] done[j]) == Some(p);
                            assert(nd[j] == done[j]);
                        } else {
                            assert(nd[done.len() as int] == seg);
                        }
                    }
                    if exists|j: int| 0 <= j < nd.len() && record_of_line(#[trigger] nd[j]) == Some(p) {
                        let j = choose|j: int| 0 <= j < nd.len() && record_of_line(#[trigger] nd[j]) == Some(p);
                        if j < done.len() {
                            assert(nd[j] == done[j]);
                        }
                    }
                }
                done = nd;
            }
            start = i + 1;
            assert(cs@.subrange(start as int, i + 1) =~= Seq::<char>::empty());
        } else {
            proof {
                assert(cs@.subrange(start as int, i + 1) =~= cs@.subrange(start as int, i as int).push(cs@[i as int]));
                assert(done.push(cs@.subrange(start as int, i as int)).update(done.len() as int, cs@.subrange(start as int, i + 1)) =~= done.push(cs@.subrange(start as int, i + 1)));
            }
        }
        i += 1;
    }
    let rec = line_record(&cs, start, n);
    let ghost seg = cs@.subrange(start as int, n as int);
    let ghost old_r = r@;
    match rec {
        Some((x, y)) => r.insert(x, y),
        None => {},
    }
    proof {
        let nd = done.push(seg);
        assert(cs@.take(n as int) =~= content@);
        assert(split_lines(content@) == nd);
        assert forall|p: (u32, u32)| r@.contains(p) <==> records_of(content@).contains(p) by {
            if r@.contains(p) {
                if old_r.contains(p) {
                    let j = choose|j: int| 0 <= j < done.len() && record_of_line(#[trigger] done[j]) == Some(p);
                    assert(nd[j] == done[j]);
                } else {
                    assert(nd[done.len() as int] == seg);
                }
            }
            if exists|j: int| 0 <= j < nd.len() && record_of_line(#[trigger] nd[j]) == Some(p) {
                let j = choose|j: int| 0 <= j < nd.len() && record_of_line(#[trigger] nd[j]) == Some(p);
                if j < done.len() {
                    assert(nd[j] == done[j]);
                }
            }
        }
        assert(r@ =~= records_of(content@));
    }
    r
}


proof fn lemma_digit_char(k: nat)
    requires
        k < 10,
    ensures
        digit_char(k) as u32 == 48 + k,
        is_digit(digit_char(k)),
{
}

/// Decimal notation is a non-empty run of digits with the number's value.
proof fn lemma_decimal(n: nat)
    ensures
        decimal(n).len() >= 1,
        forall|i: int| 0 <= i < decimal(n).len() ==> is_digit(#[trigger] decimal(n)[i]),
        digits_value(decimal(n)) == n,
    decreases n,
{
    lemma_digit_char(n % 10);
    reveal_with_fuel(digits_value, 2);
    if n < 10 {
        assert(decimal(n).drop_last() =~= Seq::<char>::empty());
        assert(decimal(n).last() == digit_char(n));
    } else {
        lemma_decimal(n / 10);
        let d = decimal(n);
        assert(d.drop_last() =~= decimal(n / 10));
        assert(d.last() == digit_char(n % 10));
        assert(digits_value(d) == digits_value(decimal(n / 10)) * 10 + n % 10);
        assert((n / 10) * 10 + n % 10 == n);
        assert forall|i: int| 0 <= i < d.len() implies is_digit(#[trigger] d[i]) by {
            if i < d.len() - 1 {
                assert(d[i] == decimal(n / 10)[i]);
            }
        }
    }
}

/// Splitting at `\n` after text without `\n` extends the last piece.
proof fn lemma_split_lines_append(s: Seq<char>, x: Seq<char>)
    requires
        forall|i: int| 0 <= i < x.len() ==> #[trigger] x[i] != '\n',
    ensures
        split_lines(s + x) == split_lines(s).update(
            split_lines(s).len() - 1,
            split_lines(s).last() + x,
        ),
        split_lines(s).len() >= 1,
    decreases x.len(),
{
    lemma_split_lines_nonempty(s);
    if x.len() == 0 {
        assert(s + x =~= s);
        assert(split_lines(s).last() + x =~= split_lines(s).last());
        assert(split_lines(s).update(split_lines(s).len() - 1, split_lines(s).last())
            =~= split_lines(s));
    } else {
        let y = x.drop_last();
        lemma_split_lines_append(s, y);
        assert((s + x).drop_last() =~= s + y);
        assert((s + x).last() == x.last());
        let p = split_lines(s);
        assert(p.last() + y + seq![x.last()] =~= p.last() + x);
        assert(p.update(p.len() - 1, p.last() + y).update(p.len() - 1, p.last() + x) =~= p.update(
            p.len() - 1,
            p.last() + x,
        ));
        assert((p.last() + y).push(x.last()) =~= p.last() + x);
    }
}

proof fn lemma_split_lines_nonempty(s: Seq<char>)
    ensures
        split_lines(s).len() >= 1,
    decreases s.len(),
{
    if s.len() > 0 {
        lemma_split_lines_nonempty(s.drop_last());
    }
}

proof fn lemma_comma_count_concat(s: Seq<char>, t: Seq<char>)
    ensures
        comma_count(s + t) == comma_count(s) + comma_count(t),
    decreases t.len(),
{
    if t.len() == 0 {
        assert(s + t =~= s);
    } else {
        lemma_comma_count_concat(s, t.drop_last());
        assert((s + t).drop_last() =~= s + t.drop_last());
    }
}

proof fn lemma_no_comma_in_digits(s: Seq<char>)
    requires
        forall|i: int| 0 <= i < s.len() ==> is_digit(#[trigger] s[i]),
    ensures
        comma_count(s) == 0,
        first_comma(s) == -1,
    decreases s.len(),
{
    if s.len() > 0 {
        lemma_no_comma_in_digits(s.drop_last());
        assert(is_digit(s[s.len() - 1]));
    }
}

proof fn lemma_first_comma_after(s: Seq<char>, t: Seq<char>)
    requires
        first_comma(s) == -1,
        s.len() >= 0,
        t.len() >= 1,
        t[0] == ',',
    ensures
        first_comma(s + t) == s.len(),
    decreases t.len(),
{
    if t.len() == 1 {
        assert((s + t).drop_last() =~= s);
    } else {
        lemma_first_comma_after(s, t.drop_last());
        assert((s + t).drop_last() =~= s + t.drop_last());
    }
}

proof fn lemma_comma_count_comma()
    ensures
        comma_count(","@) == 1,
{
    reveal_strlit(",");
    reveal_with_fuel(comma_count, 2);
    assert(","@.drop_last() =~= Seq::<char>::empty());
    assert(","@.last() == ',');
}

/// A non-empty run of digits has no white space to trim.
proof fn lemma_digits_trimmed(d: Seq<char>)
    requires
        d.len() >= 1,
        forall|i: int| 0 <= i < d.len() ==> is_digit(#[trigger] d[i]),
    ensures
        trim(d) == d,
{
    assert(is_digit(d[0]));
    assert(is_digit(d[d.len() - 1]));
}

/// The record line of `(lo, hi)`, without its newline, reads back as `(lo, hi)`.
#[verifier::rlimit(40)]
proof fn lemma_record_body(lo: u32, hi: u32)
    requires
        lo <= hi,
    ensures
        record_of_line(decimal(lo as nat) + ","@ + decimal(hi as nat)) == Some((lo, hi)),
{
    reveal_strlit(",");
    let d1 = decimal(lo as nat);
    let d2 = decimal(hi as nat);
    lemma_decimal(lo as nat);
    lemma_decimal(hi as nat);
    lemma_digits_trimmed(d1);
    lemma_digits_trimmed(d2);
    let x = d1 + ","@ + d2;
    assert(x[0] == d1[0]);
    assert(x[x.len() - 1] == d2[d2.len() - 1]);
    assert(is_digit(x[0]));
    assert(is_digit(x.last()));
    assert(trim_start(x) == x);
    assert(trim_end(x) == x);
    assert(trim(x) == x);
    lemma_no_comma_in_digits(d1);
    lemma_no_comma_in_digits(d2);
    lemma_comma_count_concat(d1, ","@);
    lemma_comma_count_concat(d1 + ","@, d2);
    lemma_comma_count_comma();
    lemma_first_comma_after(d1, ","@ + d2);
    assert(d1 + ","@ + d2 =~= d1 + (","@ + d2));
    let k = d1.len() as int;
    assert(x.take(k) =~= d1);
    assert(x.skip(k + 1) =~= d2);
    assert(is_digit(d1[0]));
    assert(is_digit(d2[0]));
    assert(unsigned_digits(d1) == d1);
    assert(unsigned_digits(d2) == d2);
}

/// Reading back what was written: appending the record line of a pair to a
/// record file that is empty or ends with a newline adds exactly that pair,
/// as `(lower, higher)`, to the pairs the file holds.
pub proof fn lemma_record_roundtrip(content: Seq<char>, a: u32, b: u32)
    requires
        content.len() == 0 || content.last() == '\n',
    ensures
        records_of(content + record_line_spec(a, b)) == records_of(content).insert(ordered(a, b)),
{
    reveal_strlit(",");
    reveal_strlit("\n");
    let (lo, hi) = ordered(a, b);
    let d1 = decimal(lo as nat);
    let d2 = decimal(hi as nat);
    lemma_decimal(lo as nat);
    lemma_decimal(hi as nat);
    let x = d1 + ","@ + d2;
    assert forall|i: int| 0 <= i < x.len() implies #[trigger] x[i] != '\n' by {
        if i < d1.len() {
            assert(is_digit(d1[i]));
        } else if i > d1.len() {
            assert(x[i] == d2[i - d1.len() - 1]);
            assert(is_digit(d2[i - d1.len() - 1]));
        }
    }
    lemma_split_lines_nonempty(content);
    let p = split_lines(content);
    assert(p.last() == Seq::<char>::empty()) by {
        if content.len() > 0 {
            assert(split_lines(content) == split_lines(content.drop_last()).push(
                Seq::<char>::empty(),
            ));
        }
    }
    lemma_split_lines_append(content, x);
    let full = content + record_line_spec(a, b);
    assert(record_line_spec(a, b) =~= x + "\n"@);
    assert(full =~= (content + x).push('\n'));
    assert(full.drop_last() =~= content + x);
    assert(split_lines(full) == split_lines(content + x).push(Seq::<char>::empty()));
    assert(p.last() + x =~= x);
    let q = split_lines(full);
    lemma_record_body(lo, hi);
    assert(record_of_line(Seq::<char>::empty()) is None) by {
        assert(trim(Seq::<char>::empty()) =~= Seq::<char>::empty());
    }
    assert forall|r: (u32, u32)| #[trigger] records_of(full).contains(r) <==> records_of(content).insert(
        (lo, hi),
    ).contains(r) by {
        if records_of(full).contains(r) {
            let i = choose|i: int| 0 <= i < q.len() && record_of_line(#[trigger] q[i]) == Some(r);
            if i < p.len() - 1 {
                assert(q[i] == p[i]);
            } else if i == p.len() - 1 {
                assert(q[i] == x);
            } else {
                assert(q[i] == Seq::<char>::empty());
            }
        }
        if records_of(content).contains(r) {
            let i = choose|i: int| 0 <= i < p.len() && record_of_line(#[trigger] p[i]) == Some(r);
            if i < p.len() - 1 {
                assert(q[i] == p[i]);
            } else {
                assert(p[i] == Seq::<char>::empty());
            }
        }
        if r == (lo, hi) {
            assert(q[p.len() - 1] == x);
        }
    }
    assert(records_of(full) =~= records_of(content).insert((lo, hi)));
}


/// Every pair read from a record file is stored lower counter first.
pub proof fn lemma_records_ordered(content: Seq<char>)
    ensures
        forall|p: (u32, u32)| #[trigger] records_of(content).contains(p) ==> p.0 <= p.1,
{
    assert forall|p: (u32, u32)| #[trigger] records_of(content).contains(p) implies p.0 <= p.1 by {
        let i = choose|i: int|
            0 <= i < split_lines(content).len() && record_of_line(#[trigger] split_lines(content)[i])
                == Some(p);
    }
}

} // verus!
