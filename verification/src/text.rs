//! Text: the sequence of characters of a string, and the few operations on it
//! that reading and writing documents needs.

use vstd::prelude::*;
use crate::bytes::cut;

verus! {

/// The characters of a string.
pub type Text = Seq<char>;

// ---------------------------------------------------------------------------
// White space and trimming

/// The characters with the Unicode property `White_Space`.
pub open spec fn is_space(c: char) -> bool {
    let u = c as u32;
    ||| 0x09 <= u <= 0x0d
    ||| u == 0x20
    ||| u == 0x85
    ||| u == 0xa0
    ||| u == 0x1680
    ||| 0x2000 <= u <= 0x200a
    ||| u == 0x2028
    ||| u == 0x2029
    ||| u == 0x202f
    ||| u == 0x205f
    ||| u == 0x3000
}

/// `s` without its leading white space.
pub open spec fn trim_start(s: Text) -> Text
    decreases s.len(),
{
    if s.len() > 0 && is_space(s[0]) {
        trim_start(s.subrange(1, s.len() as int))
    } else {
        s
    }
}

/// `s` without its trailing white space.
pub open spec fn trim_end(s: Text) -> Text
    decreases s.len(),
{
    if s.len() > 0 && is_space(s[s.len() - 1]) {
        trim_end(s.subrange(0, s.len() - 1))
    } else {
        s
    }
}

/// `s` without the white space around it.
pub open spec fn trim(s: Text) -> Text {
    trim_end(trim_start(s))
}

/// Whether `c` is white space.
pub fn char_is_space(c: char) -> (r: bool)
    ensures
        r == is_space(c),
{
    let u: u32 = c as u32;
    (0x09 <= u && u <= 0x0d) || u == 0x20 || u == 0x85 || u == 0xa0 || u == 0x1680 || (0x2000 <= u
        && u <= 0x200a) || u == 0x2028 || u == 0x2029 || u == 0x202f || u == 0x205f || u == 0x3000
}

/// The characters of `s`, by index.
pub fn chars_of(s: &str) -> (r: Vec<char>)
    ensures
        r@ == s@,
{
    let mut r: Vec<char> = Vec::new();
    for c in it: s.chars()
        invariant
            it.seq() == s@,
            r@ == s@.take(it.index() as int),
    {
        r.push(c);
    }
    r
}

/// The part of `s` between two character positions.
pub fn part<'a>(s: &'a str, from: usize, to: usize) -> (r: &'a str)
    requires
        from <= to <= s@.len(),
    ensures
        r@ == s@.subrange(from as int, to as int),
{
    s.substring_char(from, to)
}

/// `String::push`: appends one character.
pub assume_specification[ std::string::String::push ](s: &mut std::string::String, c: char)
    ensures
        final(s)@ == old(s)@.push(c),
;

/// `String::push_str`: appends the characters of a string.
pub assume_specification[ std::string::String::push_str ](s: &mut std::string::String, t: &str)
    ensures
        final(s)@ == old(s)@ + t@,
;

/// `s` without its leading white space.
pub fn trimmed_start<'a>(s: &'a str) -> (r: &'a str)
    ensures
        r@ == trim_start(s@),
{
    let cs = chars_of(s);
    let n: usize = cs.len();
    let mut a: usize = 0;
    assert(s@.subrange(0, n as int) == s@);
    while a < n && char_is_space(cs[a])
        invariant
            a <= n == cs@.len(),
            cs@ == s@,
            trim_start(s@) == trim_start(s@.subrange(a as int, n as int)),
        decreases n - a,
    {
        assert(s@.subrange(a as int, n as int).subrange(1, n - a) == s@.subrange(a + 1, n as int));
        a += 1;
    }
    part(s, a, n)
}

/// `s` without its trailing white space.
pub fn trimmed_end<'a>(s: &'a str) -> (r: &'a str)
    ensures
        r@ == trim_end(s@),
{
    let cs = chars_of(s);
    let mut b: usize = cs.len();
    assert(s@.subrange(0, b as int) == s@);
    while b > 0 && char_is_space(cs[b - 1])
        invariant
            b <= cs@.len(),
            cs@ == s@,
            trim_end(s@) == trim_end(s@.subrange(0, b as int)),
        decreases b,
    {
        assert(s@.subrange(0, b as int).subrange(0, b - 1) == s@.subrange(0, b - 1));
        b -= 1;
    }
    part(s, 0, b)
}

/// `s` without the white space around it.
pub fn trimmed<'a>(s: &'a str) -> (r: &'a str)
    ensures
        r@ == trim(s@),
{
    trimmed_end(trimmed_start(s))
}

// ---------------------------------------------------------------------------
// Searching

/// The first position at or after `i` that holds `c`.
pub open spec fn find_from(s: Text, c: char, i: int) -> Option<int>
    decreases s.len() - i,
{
    if i < 0 || i >= s.len() {
        None
    } else if s[i] == c {
        Some(i)
    } else {
        find_from(s, c, i + 1)
    }
}

/// The first position that holds `c`.
pub open spec fn find(s: Text, c: char) -> Option<int> {
    find_from(s, c, 0)
}

/// The last position before `n` that holds `c`.
pub open spec fn rfind_before(s: Text, c: char, n: int) -> Option<int>
    decreases n,
{
    if n <= 0 || n > s.len() {
        None
    } else if s[n - 1] == c {
        Some(n - 1)
    } else {
        rfind_before(s, c, n - 1)
    }
}

/// The last position that holds `c`.
pub open spec fn rfind(s: Text, c: char) -> Option<int> {
    rfind_before(s, c, s.len() as int)
}

/// What `find_from` says, without recursion.
pub proof fn lemma_find_from(s: Text, c: char, i: int)
    requires
        0 <= i <= s.len(),
    ensures
        match find_from(s, c, i) {
            Some(k) => i <= k < s.len() && s[k] == c && (forall|j: int| i <= j < k ==> s[j] != c),
            None => forall|j: int| i <= j < s.len() ==> s[j] != c,
        },
    decreases s.len() - i,
{
    if i < s.len() && s[i] != c {
        lemma_find_from(s, c, i + 1);
    }
}

/// The position that `find` gives is the only one with no `c` before it.
pub proof fn lemma_find_at(s: Text, c: char, k: int)
    requires
        0 <= k < s.len(),
        s[k] == c,
        forall|j: int| 0 <= j < k ==> s[j] != c,
    ensures
        find(s, c) == Some(k),
{
    lemma_find_from(s, c, 0);
}

/// What `rfind_before` says, without recursion.
pub proof fn lemma_rfind_before(s: Text, c: char, n: int)
    requires
        0 <= n <= s.len(),
    ensures
        match rfind_before(s, c, n) {
            Some(k) => 0 <= k < n && s[k] == c && (forall|j: int| k < j < n ==> s[j] != c),
            None => forall|j: int| 0 <= j < n ==> s[j] != c,
        },
    decreases n,
{
    if n > 0 && s[n - 1] != c {
        lemma_rfind_before(s, c, n - 1);
    }
}

/// The position of the first `c` in `cs`.
pub fn position(cs: &Vec<char>, c: char) -> (r: Option<usize>)
    ensures
        match r {
            Some(k) => find(cs@, c) == Some(k as int) && k < cs@.len(),
            None => find(cs@, c) is None,
        },
{
    let mut i: usize = 0;
    while i < cs.len()
        invariant
            i <= cs@.len(),
            find(cs@, c) == find_from(cs@, c, i as int),
        decreases cs@.len() - i,
    {
        if cs[i] == c {
            return Some(i);
        }
        i += 1;
    }
    None
}

/// The first position at or after `from` that holds `c`.
pub fn position_from(cs: &Vec<char>, c: char, from: usize) -> (r: Option<usize>)
    requires
        from <= cs@.len(),
    ensures
        match r {
            Some(k) => find_from(cs@, c, from as int) == Some(k as int) && from <= k < cs@.len(),
            None => find_from(cs@, c, from as int) is None,
        },
{
    let mut i: usize = from;
    while i < cs.len()
        invariant
            from <= i <= cs@.len(),
            find_from(cs@, c, from as int) == find_from(cs@, c, i as int),
        decreases cs@.len() - i,
    {
        if cs[i] == c {
            return Some(i);
        }
        i += 1;
    }
    None
}

/// The position of the last `c` in `cs`.
pub fn last_position(cs: &Vec<char>, c: char) -> (r: Option<usize>)
    ensures
        match r {
            Some(k) => rfind(cs@, c) == Some(k as int) && k < cs@.len(),
            None => rfind(cs@, c) is None,
        },
{
    let mut n: usize = cs.len();
    while n > 0
        invariant
            n <= cs@.len(),
            rfind(cs@, c) == rfind_before(cs@, c, n as int),
        decreases n,
    {
        if cs[n - 1] == c {
            return Some(n - 1);
        }
        n -= 1;
    }
    None
}

/// Whether `s` holds `c`.
pub fn has_char(s: &str, c: char) -> (r: bool)
    ensures
        r == s@.contains(c),
{
    let cs = chars_of(s);
    let r = position(&cs, c);
    proof {
        lemma_find_from(s@, c, 0);
    }
    r.is_some()
}

/// Whether `s` begins with `p`.
pub open spec fn starts_with(s: Text, p: Text) -> bool {
    p.len() <= s.len() && s.subrange(0, p.len() as int) == p
}

/// Whether `s` ends with `p`.
pub open spec fn ends_with(s: Text, p: Text) -> bool {
    p.len() <= s.len() && s.subrange(s.len() - p.len(), s.len() as int) == p
}

/// Whether `p` stands in `s`.
pub open spec fn holds_text(s: Text, p: Text) -> bool {
    exists|i: int| 0 <= i <= s.len() - p.len() && #[trigger] s.subrange(i, i + p.len()) == p
}

/// Whether the characters of `cs` from `at` on begin with `p`.
pub fn matches_at(cs: &Vec<char>, at: usize, p: &Vec<char>) -> (r: bool)
    requires
        at <= cs@.len(),
    ensures
        r == (at + p@.len() <= cs@.len() && cs@.subrange(at as int, at + p@.len()) == p@),
{
    let room: usize = cs.len() - at;
    if room < p.len() {
        return false;
    }
    let mut i: usize = 0;
    while i < p.len()
        invariant
            i <= p@.len(),
            at + p@.len() <= cs@.len() <= usize::MAX,
            forall|j: int| 0 <= j < i ==> cs@[at + j] == p@[j],
        decreases p@.len() - i,
    {
        if cs[at + i] != p[i] {
            assert(cs@.subrange(at as int, at + p@.len())[i as int] != p@[i as int]);
            return false;
        }
        i += 1;
    }
    assert(cs@.subrange(at as int, at + p@.len()) =~= p@);
    true
}

/// Whether `s` begins with `p`.
pub fn begins(s: &str, p: &str) -> (r: bool)
    ensures
        r == starts_with(s@, p@),
{
    matches_at(&chars_of(s), 0, &chars_of(p))
}

/// Whether `s` ends with `p`.
pub fn ends(s: &str, p: &str) -> (r: bool)
    ensures
        r == ends_with(s@, p@),
{
    let cs = chars_of(s);
    let ps = chars_of(p);
    if cs.len() < ps.len() {
        return false;
    }
    matches_at(&cs, cs.len() - ps.len(), &ps)
}

/// Whether `p` stands in `s`.
pub fn holds(s: &str, p: &str) -> (r: bool)
    ensures
        r == holds_text(s@, p@),
{
    let cs = chars_of(s);
    let ps = chars_of(p);
    if cs.len() < ps.len() {
        return false;
    }
    let last: usize = cs.len() - ps.len();
    let mut i: usize = 0;
    while i <= last
        invariant
            i <= last + 1,
            last + ps@.len() == cs@.len(),
            cs@ == s@,
            ps@ == p@,
            forall|j: int| 0 <= j < i ==> #[trigger] s@.subrange(j, j + p@.len()) != p@,
        decreases last + 1 - i,
    {
        if matches_at(&cs, i, &ps) {
            return true;
        }
        if i == last {
            return false;
        }
        i += 1;
    }
    false
}

/// Whether two strings hold the same characters.
pub fn same_text(a: &str, b: &str) -> (r: bool)
    ensures
        r == (a@ == b@),
{
    let xs = chars_of(a);
    let ys = chars_of(b);
    let r = xs.len() == ys.len() && matches_at(&xs, 0, &ys);
    proof {
        assert(a@.subrange(0, a@.len() as int) == a@);
    }
    r
}

/// A new string with the characters of `s`.
pub fn owned(s: &str) -> (r: String)
    ensures
        r@ == s@,
{
    let mut r: String = String::new();
    r.push_str(s);
    assert(Seq::<char>::empty() + s@ == s@);
    r
}

// ---------------------------------------------------------------------------
// Splitting

/// The pieces of `s` between the occurrences of `c`; there is always one.
pub open spec fn split(s: Text, c: char) -> Seq<Text>
    decreases s.len(),
{
    match find(s, c) {
        Some(k) => if 0 <= k < s.len() {
            seq![s.subrange(0, k)] + split(s.subrange(k + 1, s.len() as int), c)
        } else {
            seq![s]
        },
        None => seq![s],
    }
}

/// `s` without one carriage return at its end.
pub open spec fn drop_return(s: Text) -> Text {
    if s.len() > 0 && s[s.len() - 1] == '\r' {
        s.subrange(0, s.len() - 1)
    } else {
        s
    }
}

/// The lines of `s`: a line ends at a newline or at a carriage return and a
/// newline, and the ending of the last line may be missing.
pub open spec fn lines(s: Text) -> Seq<Text>
    decreases s.len(),
{
    if s.len() == 0 {
        seq![]
    } else {
        match find(s, '\n') {
            Some(k) => if 0 <= k < s.len() {
                seq![drop_return(s.subrange(0, k))] + lines(s.subrange(k + 1, s.len() as int))
            } else {
                seq![s]
            },
            None => seq![s],
        }
    }
}

/// The number of spaces that `s` begins with.
pub open spec fn indentation(s: Text) -> nat
    decreases s.len(),
{
    if s.len() > 0 && s[0] == ' ' {
        1 + indentation(s.subrange(1, s.len() as int))
    } else {
        0
    }
}

/// The number of spaces that `s` begins with.
pub fn indentation_of(s: &str) -> (r: usize)
    ensures
        r == indentation(s@),
        r <= s@.len(),
{
    let cs = chars_of(s);
    let n: usize = cs.len();
    let mut a: usize = 0;
    assert(s@.subrange(0, n as int) == s@);
    while a < n && cs[a] == ' '
        invariant
            a <= n == cs@.len(),
            cs@ == s@,
            indentation(s@) == a + indentation(s@.subrange(a as int, n as int)),
        decreases n - a,
    {
        assert(s@.subrange(a as int, n as int).subrange(1, n - a) == s@.subrange(a + 1, n as int));
        a += 1;
    }
    a
}

/// The texts of a vector of strings.
pub open spec fn texts(v: Seq<&str>) -> Seq<Text> {
    Seq::new(v.len(), |i: int| v[i]@)
}

/// The pieces of `s` between the occurrences of `c`.
pub fn pieces<'a>(s: &'a str, c: char) -> (r: Vec<&'a str>)
    ensures
        texts(r@) == split(s@, c),
        r@.len() >= 1,
{
    let mut r: Vec<&'a str> = Vec::new();
    let mut rest: &'a str = s;
    loop
        invariant_except_break
            split(s@, c) == texts(r@) + split(rest@, c),
        ensures
            split(s@, c) == texts(r@),
            r@.len() >= 1,
        decreases rest@.len(),
    {
        let cs = chars_of(rest);
        let n: usize = cs.len();
        let ghost before = r@;
        match position(&cs, c) {
            Some(k) => {
                let head = part(rest, 0, k);
                r.push(head);
                let ghost whole = rest@;
                rest = part(rest, k + 1, n);
                assert(texts(r@) =~= texts(before) + seq![head@]);
                assert(texts(before) + (seq![head@] + split(rest@, c)) =~= texts(r@) + split(rest@, c));
            },
            None => {
                r.push(rest);
                assert(texts(r@) =~= texts(before) + seq![rest@]);
                break;
            },
        }
    }
    r
}

/// The lines of `s`.
pub fn line_list<'a>(s: &'a str) -> (r: Vec<&'a str>)
    ensures
        texts(r@) == lines(s@),
{
    let mut r: Vec<&'a str> = Vec::new();
    let mut rest: &'a str = s;
    assert(texts(r@) + lines(s@) =~= lines(s@));
    while !rest.is_empty()
        invariant
            lines(s@) == texts(r@) + lines(rest@),
        decreases rest@.len(),
    {
        let ghost before = r@;
        let ghost whole = rest@;
        match cut(rest, 0x0a) {
            Some((line, behind)) => {
                let line2 = without_return(line);
                r.push(line2);
                rest = behind;
                assert(texts(r@) =~= texts(before) + seq![line2@]);
                assert(texts(before) + (seq![line2@] + lines(rest@)) =~= texts(r@) + lines(rest@));
            },
            None => {
                r.push(rest);
                rest = "";
                proof {
                    reveal_strlit("");
                }
                assert(texts(r@) =~= texts(before) + seq![whole]);
                assert(texts(r@) + lines(rest@) =~= texts(r@));
            },
        }
    }
    assert(texts(r@) + lines(rest@) =~= texts(r@));
    r
}

/// `s` without one carriage return at its end.
fn without_return<'a>(s: &'a str) -> (r: &'a str)
    ensures
        r@ == drop_return(s@),
{
    let cs = chars_of(s);
    let n: usize = cs.len();
    if n > 0 && cs[n - 1] == '\r' {
        part(s, 0, n - 1)
    } else {
        s
    }
}

/// The first position at or after `i` at which `p` stands in `s`.
pub open spec fn find_text(s: Text, p: Text, i: int) -> Option<int>
    decreases s.len() + 1 - i,
{
    if i < 0 || i + p.len() > s.len() {
        None
    } else if s.subrange(i, i + p.len()) == p {
        Some(i)
    } else {
        find_text(s, p, i + 1)
    }
}

/// The bounds of `find_text`.
pub proof fn lemma_find_text(s: Text, p: Text, i: int)
    requires
        0 <= i,
    ensures
        find_text(s, p, i) matches Some(k) ==> i <= k && k + p.len() <= s.len() && s.subrange(
            k,
            k + p.len(),
        ) == p,
    decreases s.len() + 1 - i,
{
    if i + p.len() <= s.len() && s.subrange(i, i + p.len()) != p {
        lemma_find_text(s, p, i + 1);
    }
}

/// The pieces of `s` between the occurrences of `p`; there is always one.
pub open spec fn split_text(s: Text, p: Text) -> Seq<Text>
    decreases s.len(),
{
    match find_text(s, p, 0) {
        Some(k) => if p.len() > 0 && 0 <= k && k + p.len() <= s.len() {
            seq![s.subrange(0, k)] + split_text(s.subrange(k + p.len(), s.len() as int), p)
        } else {
            seq![s]
        },
        None => seq![s],
    }
}

/// The position of the first `p` in `s`.
pub fn text_position(cs: &Vec<char>, p: &Vec<char>) -> (r: Option<usize>)
    ensures
        match r {
            Some(k) => find_text(cs@, p@, 0) == Some(k as int) && k + p@.len() <= cs@.len(),
            None => find_text(cs@, p@, 0) is None,
        },
{
    if cs.len() < p.len() {
        return None;
    }
    let last: usize = cs.len() - p.len();
    let mut i: usize = 0;
    loop
        invariant
            i <= last,
            last + p@.len() == cs@.len(),
            find_text(cs@, p@, 0) == find_text(cs@, p@, i as int),
        decreases last - i,
    {
        if matches_at(cs, i, p) {
            return Some(i);
        }
        if i == last {
            assert(find_text(cs@, p@, i + 1) is None);
            return None;
        }
        i += 1;
    }
}

/// The pieces of `s` between the occurrences of `p`.
pub fn text_pieces<'a>(s: &'a str, p: &str) -> (r: Vec<&'a str>)
    requires
        p@.len() > 0,
    ensures
        texts(r@) == split_text(s@, p@),
{
    let ps = chars_of(p);
    let m: usize = ps.len();
    let mut r: Vec<&'a str> = Vec::new();
    let mut rest: &'a str = s;
    loop
        invariant_except_break
            split_text(s@, p@) == texts(r@) + split_text(rest@, p@),
            ps@ == p@,
            m == p@.len() > 0,
        ensures
            split_text(s@, p@) == texts(r@),
        decreases rest@.len(),
    {
        let cs = chars_of(rest);
        let n: usize = cs.len();
        let ghost before = r@;
        match text_position(&cs, &ps) {
            Some(k) => {
                let head = part(rest, 0, k);
                r.push(head);
                rest = part(rest, k + m, n);
                assert(texts(r@) =~= texts(before) + seq![head@]);
                assert(texts(before) + (seq![head@] + split_text(rest@, p@)) =~= texts(r@)
                    + split_text(rest@, p@));
            },
            None => {
                r.push(rest);
                assert(texts(r@) =~= texts(before) + seq![rest@]);
                break;
            },
        }
    }
    r
}

// ---------------------------------------------------------------------------
// Facts about trimming

/// Trimming makes nothing longer.
pub proof fn lemma_trim_len(s: Text)
    ensures
        trim_start(s).len() <= s.len(),
        trim_end(s).len() <= s.len(),
        trim(s).len() <= s.len(),
{
    lemma_trim_start_len(s);
    lemma_trim_end_len(s);
    lemma_trim_end_len(trim_start(s));
}

proof fn lemma_trim_start_len(s: Text)
    ensures
        trim_start(s).len() <= s.len(),
    decreases s.len(),
{
    if s.len() > 0 && is_space(s[0]) {
        lemma_trim_start_len(s.subrange(1, s.len() as int));
    }
}

proof fn lemma_trim_end_len(s: Text)
    ensures
        trim_end(s).len() <= s.len(),
    decreases s.len(),
{
    if s.len() > 0 && is_space(s[s.len() - 1]) {
        lemma_trim_end_len(s.subrange(0, s.len() - 1));
    }
}

} // verus!
