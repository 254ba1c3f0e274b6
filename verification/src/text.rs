//! Character-level helpers shared by the protocol modules.
//!
//! Strings are modelled as `Seq<char>`. Positions are counted in characters,
//! never in bytes.

use vstd::prelude::*;
use vstd::string::*;

verus! {

/// The characters of `s`, in order, as a vector that can be indexed in
/// constant time.
pub fn chars_of(s: &str) -> (v: Vec<char>)
    ensures
        v@ == s@,
{
    let mut v: Vec<char> = Vec::new();
    for c in it: s.chars()
        invariant
            it.seq() == s@,
            v@ == it.seq().take(it.index() as int),
    {
        v.push(c);
    }
    v
}

/// `word` stands in `t` at position `at`.
pub open spec fn has_at(t: Seq<char>, at: int, word: Seq<char>) -> bool {
    &&& 0 <= at
    &&& at + word.len() <= t.len()
    &&& forall|i: int| 0 <= i < word.len() ==> #[trigger] t[at + i] == word[i]
}

/// Tells whether `word` stands in `t` at position `at`.
pub fn starts_at(t: &Vec<char>, at: usize, word: &Vec<char>) -> (b: bool)
    ensures
        b == has_at(t@, at as int, word@),
{
    if at > t.len() || word.len() > t.len() - at {
        return false;
    }
    let mut i: usize = 0;
    while i < word.len()
        invariant
            i <= word.len(),
            at + word.len() <= t.len(),
            forall|j: int| 0 <= j < i ==> #[trigger] t@[at + j] == word@[j],
        decreases word.len() - i,
    {
        if t[at + i] != word[i] {
            return false;
        }
        i += 1;
    }
    true
}

/// The lower-case form of an ASCII capital letter; any other character
/// unchanged.
pub open spec fn ascii_lower(c: char) -> char {
    if 'A' <= c && c <= 'Z' {
        ((c as u32) + 32) as char
    } else {
        c
    }
}

/// `a` and `b` are equal up to the case of their ASCII letters.
pub open spec fn same_ignoring_ascii_case(a: Seq<char>, b: Seq<char>) -> bool {
    &&& a.len() == b.len()
    &&& forall|i: int| 0 <= i < a.len() ==> ascii_lower(#[trigger] a[i]) == ascii_lower(b[i])
}

/// Tells whether two characters are equal up to ASCII case.
pub fn same_letter(a: char, b: char) -> (r: bool)
    ensures
        r == (ascii_lower(a) == ascii_lower(b)),
{
    let x: u32 = if 'A' <= a && a <= 'Z' {
        a as u32 + 32
    } else {
        a as u32
    };
    let y: u32 = if 'A' <= b && b <= 'Z' {
        b as u32 + 32
    } else {
        b as u32
    };
    assert(x == ascii_lower(a) as u32);
    assert(y == ascii_lower(b) as u32);
    x == y
}

/// Tells whether the part `at..end` of `t` begins with `word`, up to ASCII
/// case.
pub fn starts_at_ignoring_case(t: &Vec<char>, at: usize, end: usize, word: &Vec<char>) -> (b: bool)
    ensures
        b == (at <= end <= t@.len() && end - at >= word@.len() && same_ignoring_ascii_case(
            t@.subrange(at as int, at + word@.len()),
            word@,
        )),
{
    if at > end || end > t.len() || word.len() > end - at {
        return false;
    }
    let ghost head = t@.subrange(at as int, at + word.len());
    let mut i: usize = 0;
    while i < word.len()
        invariant
            i <= word.len(),
            at + word.len() <= end <= t.len(),
            head == t@.subrange(at as int, at + word.len()),
            forall|j: int| 0 <= j < i ==> ascii_lower(#[trigger] head[j]) == ascii_lower(word@[j]),
        decreases word.len() - i,
    {
        assert(head[i as int] == t@[at + i]);
        if !same_letter(t[at + i], word[i]) {
            return false;
        }
        i += 1;
    }
    true
}

/// White space as Unicode defines it (the property `White_Space`).
pub open spec fn is_space(c: char) -> bool {
    let u = c as u32;
    ||| 0x09 <= u <= 0x0D
    ||| u == 0x20
    ||| u == 0x85
    ||| u == 0xA0
    ||| u == 0x1680
    ||| 0x2000 <= u <= 0x200A
    ||| u == 0x2028
    ||| u == 0x2029
    ||| u == 0x202F
    ||| u == 0x205F
    ||| u == 0x3000
}

/// Tells whether `c` is white space.
pub fn is_white_space(c: char) -> (b: bool)
    ensures
        b == is_space(c),
{
    let u: u32 = c as u32;
    (0x09 <= u && u <= 0x0D) || u == 0x20 || u == 0x85 || u == 0xA0 || u == 0x1680 || (0x2000 <= u
        && u <= 0x200A) || u == 0x2028 || u == 0x2029 || u == 0x202F || u == 0x205F || u == 0x3000
}

/// The first position in `from..end` that holds no white space, or `end`.
pub open spec fn skip_space(s: Seq<char>, from: int, end: int) -> int
    decreases end - from,
{
    if from < end && is_space(s[from]) {
        skip_space(s, from + 1, end)
    } else {
        from
    }
}

/// The least position `e` in `from..=end` with nothing but white space in
/// `e..end`.
pub open spec fn drop_space(s: Seq<char>, from: int, end: int) -> int
    decreases end - from,
{
    if from < end && is_space(s[end - 1]) {
        drop_space(s, from, end - 1)
    } else {
        end
    }
}

/// `s` without the white space at its two ends.
pub open spec fn trimmed(s: Seq<char>) -> Seq<char> {
    let a = skip_space(s, 0, s.len() as int);
    s.subrange(a, drop_space(s, a, s.len() as int))
}

/// Trims `s` at both ends.
pub fn trim(s: &str) -> (r: &str)
    ensures
        r@ == trimmed(s@),
{
    let t = chars_of(s);
    let n = t.len();
    let mut a: usize = 0;
    while a < n && is_white_space(t[a])
        invariant
            a <= n,
            n == t@.len(),
            skip_space(t@, a as int, n as int) == skip_space(t@, 0, n as int),
        decreases n - a,
    {
        a += 1;
    }
    let mut b: usize = n;
    while a < b && is_white_space(t[b - 1])
        invariant
            a <= b <= n,
            n == t@.len(),
            drop_space(t@, a as int, b as int) == drop_space(t@, a as int, n as int),
        decreases b - a,
    {
        b -= 1;
    }
    s.substring_char(a, b)
}

/// The character that writes the digit `d`.
pub open spec fn digit(d: int) -> char {
    (0x30 + d) as char
}

/// `n` written in decimal, without leading zeros.
pub open spec fn decimal(n: nat) -> Seq<char>
    decreases n,
{
    if n < 10 {
        seq![digit(n as int)]
    } else {
        decimal(n / 10).push(digit((n % 10) as int))
    }
}

/// The one-character string that writes the digit `d`.
fn digit_str(d: u32) -> (s: &'static str)
    requires
        d < 10,
    ensures
        s@ == seq![digit(d as int)],
{
    proof {
        reveal_strlit("0");
        reveal_strlit("1");
        reveal_strlit("2");
        reveal_strlit("3");
        reveal_strlit("4");
        reveal_strlit("5");
        reveal_strlit("6");
        reveal_strlit("7");
        reveal_strlit("8");
        reveal_strlit("9");
    }
    let s = match d {
        0 => "0",
        1 => "1",
        2 => "2",
        3 => "3",
        4 => "4",
        5 => "5",
        6 => "6",
        7 => "7",
        8 => "8",
        _ => "9",
    };
    assert(s@ =~= seq![digit(d as int)]);
    s
}

/// Writes `n` in decimal.
pub fn decimal_string(n: u32) -> (s: String)
    ensures
        s@ == decimal(n as nat),
    decreases n,
{
    if n < 10 {
        String::from_str(digit_str(n))
    } else {
        let mut s = decimal_string(n / 10);
        s.append(digit_str(n % 10));
        assert(s@ =~= decimal(n as nat));
        s
    }
}

/// `a` comes strictly before `b` in dictionary order, characters compared by
/// their code points.
pub open spec fn precedes(a: Seq<char>, b: Seq<char>) -> bool {
    exists|k: int|
        0 <= k <= a.len() && k < b.len() && #[trigger] a.take(k) == b.take(k) && (k == a.len() || a[k]
            < b[k])
}

/// How two strings stand to each other in dictionary order.
#[derive(Clone, Copy, Debug, PartialEq, Eq, Structural)]
pub enum Rank {
    Before,
    Same,
    After,
}

/// Places `a` relative to `b` in dictionary order.
pub fn rank(a: &str, b: &str) -> (r: Rank)
    ensures
        r == Rank::Before <==> precedes(a@, b@),
        r == Rank::Same <==> a@ == b@,
        r == Rank::After <==> precedes(b@, a@),
{
    let x = chars_of(a);
    let y = chars_of(b);
    let mut k: usize = 0;
    while k < x.len() && k < y.len() && x[k] == y[k]
        invariant
            k <= x.len(),
            k <= y.len(),
            x@.take(k as int) == y@.take(k as int),
        decreases x.len() - k,
    {
        assert(x@.take(k + 1) =~= x@.take(k as int).push(x@[k as int]));
        assert(y@.take(k + 1) =~= y@.take(k as int).push(y@[k as int]));
        k += 1;
    }
    proof {
        lemma_precedes_witness(x@, y@, k as int);
        lemma_precedes_witness(y@, x@, k as int);
    }
    if k == x.len() {
        if k == y.len() {
            assert(x@ =~= x@.take(k as int));
            assert(y@ =~= y@.take(k as int));
            Rank::Same
        } else {
            Rank::Before
        }
    } else if k == y.len() {
        Rank::After
    } else if x[k] < y[k] {
        Rank::Before
    } else {
        Rank::After
    }
}

/// Tells whether two strings hold the same text.
pub fn same_text(a: &str, b: &str) -> (r: bool)
    ensures
        r == (a@ == b@),
{
    match rank(a, b) {
        Rank::Same => true,
        _ => false,
    }
}

/// With `k` the length of the longest common prefix of `a` and `b`, the order
/// of the two is read off at position `k`.
proof fn lemma_precedes_witness(a: Seq<char>, b: Seq<char>, k: int)
    requires
        0 <= k <= a.len(),
        k <= b.len(),
        a.take(k) == b.take(k),
        k == a.len() || k == b.len() || a[k] != b[k],
    ensures
        precedes(a, b) <==> k < b.len() && (k == a.len() || a[k] < b[k]),
        a == b <==> k == a.len() && k == b.len(),
{
    if precedes(a, b) {
        let j = choose|j: int|
            0 <= j <= a.len() && j < b.len() && #[trigger] a.take(j) == b.take(j) && (j == a.len()
                || a[j] < b[j]);
        if j < k {
            assert(a.take(k)[j] == a[j]);
            assert(b.take(k)[j] == b[j]);
        } else if j > k {
            assert(a.take(j)[k] == a[k]);
            assert(b.take(j)[k] == b[k]);
        }
    }
    if k == a.len() && k == b.len() {
        assert(a =~= a.take(k));
        assert(b =~= b.take(k));
    }
}

/// Dictionary order is transitive.
pub proof fn lemma_precedes_transitive(a: Seq<char>, b: Seq<char>, c: Seq<char>)
    requires
        precedes(a, b),
        precedes(b, c),
    ensures
        precedes(a, c),
{
    let i = choose|k: int|
        0 <= k <= a.len() && k < b.len() && #[trigger] a.take(k) == b.take(k) && (k == a.len() || a[k]
            < b[k]);
    let j = choose|k: int|
        0 <= k <= b.len() && k < c.len() && #[trigger] b.take(k) == c.take(k) && (k == b.len() || b[k]
            < c[k]);
    let m = if i <= j { i } else { j };
    assert(a.take(m) =~= c.take(m)) by {
        assert forall|x: int| 0 <= x < m implies a[x] == c[x] by {
            assert(a.take(i)[x] == a[x] && b.take(i)[x] == b[x]);
            assert(b.take(j)[x] == b[x] && c.take(j)[x] == c[x]);
        }
    }
    if i < j {
        assert(b.take(j)[i] == b[i] && c.take(j)[i] == c[i]);
    } else if j < i {
        assert(a.take(i)[j] == a[j] && b.take(i)[j] == b[j]);
    }
}

/// The texts of a sequence of strings.
pub open spec fn views(v: Seq<String>) -> Seq<Seq<char>> {
    Seq::new(v.len(), |i: int| v[i]@)
}

/// Each string of `s` comes strictly before the next in dictionary order.
pub open spec fn ascending(s: Seq<Seq<char>>) -> bool {
    forall|i: int, j: int| 0 <= i < j < s.len() ==> precedes(#[trigger] s[i], #[trigger] s[j])
}

/// A strictly ascending sequence holds no string twice.
pub proof fn lemma_ascending_distinct(s: Seq<Seq<char>>)
    requires
        ascending(s),
    ensures
        s.no_duplicates(),
{
    assert forall|i: int, j: int| 0 <= i < s.len() && 0 <= j < s.len() && i != j implies s[i]
        != s[j] by {
        if i < j {
            assert(precedes(s[i], s[j]));
        } else {
            assert(precedes(s[j], s[i]));
        }
    }
}

/// Every string of `a` that is not the last one of `b` is among the strings
/// of `b` before the last, where the two hold the same strings and end with
/// the same one.
proof fn lemma_front_within(a: Seq<Seq<char>>, b: Seq<Seq<char>>)
    requires
        a.len() > 0,
        b.len() > 0,
        a.no_duplicates(),
        a.to_set() == b.to_set(),
        a.last() == b.last(),
    ensures
        forall|e: Seq<char>| a.drop_last().contains(e) ==> b.drop_last().contains(e),
{
    assert forall|e: Seq<char>| a.drop_last().contains(e) implies b.drop_last().contains(e) by {
        let i = choose|i: int| 0 <= i < a.drop_last().len() && a.drop_last()[i] == e;
        assert(a[i] == e);
        assert(a.contains(e));
        assert(b.to_set().contains(e));
        let m = choose|m: int| 0 <= m < b.len() && b[m] == e;
        if m == b.len() - 1 {
            assert(a[a.len() - 1] == a[i]);
        } else {
            assert(b.drop_last()[m] == e);
        }
    }
}

/// A set of strings has one ascending listing only.
pub proof fn lemma_ascending_unique(a: Seq<Seq<char>>, b: Seq<Seq<char>>)
    requires
        ascending(a),
        ascending(b),
        a.to_set() == b.to_set(),
    ensures
        a == b,
    decreases a.len(),
{
    lemma_ascending_distinct(a);
    lemma_ascending_distinct(b);
    a.unique_seq_to_set();
    b.unique_seq_to_set();
    if a.len() > 0 {
        let x = a.last();
        let y = b.last();
        if x != y {
            assert(a.contains(x));
            assert(b.to_set().contains(x));
            let k = choose|k: int| 0 <= k < b.len() && b[k] == x;
            assert(precedes(b[k], b[b.len() - 1]));
            assert(b.contains(y));
            assert(a.to_set().contains(y));
            let j = choose|j: int| 0 <= j < a.len() && a[j] == y;
            assert(precedes(a[j], a[a.len() - 1]));
            lemma_precedes_transitive(x, y, x);
        }
        let front_a = a.drop_last();
        let front_b = b.drop_last();
        lemma_front_within(a, b);
        lemma_front_within(b, a);
        assert(front_a.to_set() =~= front_b.to_set());
        assert(ascending(front_a)) by {
            assert forall|i: int, j: int| 0 <= i < j < front_a.len() implies precedes(
                #[trigger] front_a[i],
                #[trigger] front_a[j],
            ) by {
                assert(precedes(a[i], a[j]));
            }
        }
        assert(ascending(front_b)) by {
            assert forall|i: int, j: int| 0 <= i < j < front_b.len() implies precedes(
                #[trigger] front_b[i],
                #[trigger] front_b[j],
            ) by {
                assert(precedes(b[i], b[j]));
            }
        }
        lemma_ascending_unique(front_a, front_b);
        assert(a =~= front_a.push(x));
        assert(b =~= front_b.push(y));
    } else {
        assert(a =~= b);
    }
}

} // verus!
