//! Reading along a line: quotes, escapes, braces and brackets.

use vstd::prelude::*;
use crate::text::{chars_of, find_from, position_from, Text};

verus! {

// ---------------------------------------------------------------------------
// Where a reader is

/// Where a reader of a line is: behind a backslash inside quotes, inside
/// quotes, and how deep inside braces and brackets.
pub struct Place {
    pub skip: bool,
    pub quoted: bool,
    pub brace: int,
    pub bracket: int,
}

/// Outside of everything.
pub open spec fn outside() -> Place {
    Place { skip: false, quoted: false, brace: 0, bracket: 0 }
}

/// Where the reader is once it has read `c`.
pub open spec fn step(p: Place, c: char) -> Place {
    if p.skip {
        Place { skip: false, ..p }
    } else if p.quoted && c == '\\' {
        Place { skip: true, ..p }
    } else if c == '"' {
        Place { quoted: !p.quoted, ..p }
    } else if p.quoted {
        p
    } else if c == '{' {
        Place { brace: p.brace + 1, ..p }
    } else if c == '}' {
        Place { brace: p.brace - 1, ..p }
    } else if c == '[' {
        Place { bracket: p.bracket + 1, ..p }
    } else if c == ']' {
        Place { bracket: p.bracket - 1, ..p }
    } else {
        p
    }
}

/// Whether a `c` that takes the reader from `p` on stands outside of quotes.
pub open spec fn open_to(p: Place, c: char) -> bool {
    !p.skip && !step(p, c).quoted
}

/// Where the reader is, in a form to compute with.
pub struct Cursor {
    pub skip: bool,
    pub quoted: bool,
    pub brace: i128,
    pub bracket: i128,
}

impl View for Cursor {
    type V = Place;

    open spec fn view(&self) -> Place {
        Place {
            skip: self.skip,
            quoted: self.quoted,
            brace: self.brace as int,
            bracket: self.bracket as int,
        }
    }
}

impl Cursor {
    /// Whether the reader has come at most `n` braces and brackets deep.
    pub open spec fn within(&self, n: int) -> bool {
        -n <= self.brace <= n && -n <= self.bracket <= n
    }

    /// Outside of everything.
    pub fn start() -> (r: Cursor)
        ensures
            r@ == outside(),
            r.within(0),
    {
        Cursor { skip: false, quoted: false, brace: 0, bracket: 0 }
    }

    /// Reads `c`.
    pub fn read(&mut self, c: char, Ghost(n): Ghost<int>)
        requires
            old(self).within(n),
            0 <= n < usize::MAX,
        ensures
            final(self)@ == step(old(self)@, c),
            final(self).within(n + 1),
    {
        if self.skip {
            self.skip = false;
        } else if self.quoted && c == '\\' {
            self.skip = true;
        } else if c == '"' {
            self.quoted = !self.quoted;
        } else if self.quoted {
        } else if c == '{' {
            self.brace += 1;
        } else if c == '}' {
            self.brace -= 1;
        } else if c == '[' {
            self.bracket += 1;
        } else if c == ']' {
            self.bracket -= 1;
        }
    }
}

// ---------------------------------------------------------------------------
// The colon behind a key

/// The first position at or after `i` that holds a colon, a quote or an opening
/// brace.
pub open spec fn first_mark(s: Text, i: int) -> Option<int>
    decreases s.len() - i,
{
    if i < 0 || i >= s.len() {
        None
    } else if s[i] == ':' || s[i] == '"' || s[i] == '{' {
        Some(i)
    } else {
        first_mark(s, i + 1)
    }
}

/// The first colon at or after `i` outside of quotes and braces.
pub open spec fn open_colon(s: Text, i: int, p: Place) -> Option<int>
    decreases s.len() - i,
{
    if i < 0 || i >= s.len() {
        None
    } else if s[i] == ':' && open_to(p, ':') && p.brace == 0 {
        Some(i)
    } else {
        open_colon(s, i + 1, step(p, s[i]))
    }
}

/// The colon behind the key that `s` begins with: the first one, unless a quote
/// or an opening brace comes before it, and then the first one outside of
/// quotes and braces.
pub open spec fn key_colon(s: Text) -> Option<int> {
    match first_mark(s, 0) {
        None => None,
        Some(k) => if s[k] == ':' {
            Some(k)
        } else {
            open_colon(s, 0, outside())
        },
    }
}

/// The bounds of `first_mark`.
pub proof fn lemma_first_mark(s: Text, i: int)
    requires
        0 <= i <= s.len(),
    ensures
        match first_mark(s, i) {
            Some(k) => i <= k < s.len() && (s[k] == ':' || s[k] == '"' || s[k] == '{') && (forall|
                j: int,
            |
                i <= j < k ==> s[j] != ':' && s[j] != '"' && s[j] != '{'),
            None => forall|j: int| i <= j < s.len() ==> s[j] != ':' && s[j] != '"' && s[j] != '{',
        },
    decreases s.len() - i,
{
    if i < s.len() && !(s[i] == ':' || s[i] == '"' || s[i] == '{') {
        lemma_first_mark(s, i + 1);
    }
}

/// The bounds of `open_colon`.
pub proof fn lemma_open_colon(s: Text, i: int, p: Place)
    requires
        0 <= i <= s.len(),
    ensures
        open_colon(s, i, p) matches Some(k) ==> i <= k < s.len() && s[k] == ':',
    decreases s.len() - i,
{
    if i < s.len() {
        lemma_open_colon(s, i + 1, step(p, s[i]));
    }
}

/// The bounds of `key_colon`.
pub proof fn lemma_key_colon(s: Text)
    ensures
        key_colon(s) matches Some(k) ==> 0 <= k < s.len() && s[k] == ':',
{
    lemma_first_mark(s, 0);
    lemma_open_colon(s, 0, outside());
}

/// The position of the colon behind a key.
pub fn find_colon(cs: &Vec<char>) -> (r: Option<usize>)
    ensures
        match r {
            Some(k) => key_colon(cs@) == Some(k as int) && k < cs@.len() && cs@[k as int] == ':',
            None => key_colon(cs@) is None,
        },
{
    let n: usize = cs.len();
    let mut i: usize = 0;
    while i < n && cs[i] != ':' && cs[i] != '"' && cs[i] != '{'
        invariant
            i <= n == cs@.len(),
            first_mark(cs@, 0) == first_mark(cs@, i as int),
        decreases n - i,
    {
        i += 1;
    }
    if i == n {
        return None;
    }
    if cs[i] == ':' {
        return Some(i);
    }
    let mut at: Cursor = Cursor::start();
    let mut j: usize = 0;
    while j < n
        invariant
            j <= n == cs@.len(),
            at.within(j as int),
            open_colon(cs@, 0, outside()) == open_colon(cs@, j as int, at@),
            key_colon(cs@) == open_colon(cs@, 0, outside()),
        decreases n - j,
    {
        let c: char = cs[j];
        if c == ':' && !at.skip && !at.quoted && at.brace == 0 {
            return Some(j);
        }
        at.read(c, Ghost(j as int));
        j += 1;
    }
    None
}

// ---------------------------------------------------------------------------
// Pieces between delimiters

/// The first position at or after `i` that holds `d` outside of quotes, braces
/// and brackets, or the end.
pub open spec fn piece_end(s: Text, d: char, i: int, p: Place) -> int
    decreases s.len() - i,
{
    if i < 0 || i >= s.len() {
        s.len() as int
    } else {
        let q = step(p, s[i]);
        if s[i] == d && open_to(p, d) && q.brace == 0 && q.bracket == 0 {
            i
        } else {
            piece_end(s, d, i + 1, q)
        }
    }
}

/// The bounds of `piece_end`.
pub proof fn lemma_piece_end(s: Text, d: char, i: int, p: Place)
    requires
        0 <= i <= s.len(),
    ensures
        i <= piece_end(s, d, i, p) <= s.len(),
        piece_end(s, d, i, p) < s.len() ==> s[piece_end(s, d, i, p)] == d,
    decreases s.len() - i,
{
    if i < s.len() {
        lemma_piece_end(s, d, i + 1, step(p, s[i]));
    }
}

/// The pieces of `s` between the delimiters; there is always one.
pub open spec fn cut_pieces(s: Text, d: char) -> Seq<Text>
    decreases s.len(),
{
    let e = piece_end(s, d, 0, outside());
    if 0 <= e < s.len() {
        seq![s.subrange(0, e)] + cut_pieces(s.subrange(e + 1, s.len() as int), d)
    } else {
        seq![s]
    }
}

/// The pieces of `s` between the delimiters that stand outside of quotes,
/// braces and brackets. An empty text has none.
pub open spec fn pieces(s: Text, d: char) -> Seq<Text> {
    if s.len() == 0 {
        seq![]
    } else {
        cut_pieces(s, d)
    }
}

/// A piece is no longer than the text it is from.
pub proof fn lemma_cut_pieces(s: Text, d: char)
    ensures
        cut_pieces(s, d).len() >= 1,
        forall|i: int| 0 <= i < cut_pieces(s, d).len() ==> (#[trigger] cut_pieces(s, d)[i]).len() <= s.len(),
    decreases s.len(),
{
    let e = piece_end(s, d, 0, outside());
    lemma_piece_end(s, d, 0, outside());
    if e < s.len() {
        let rest = s.subrange(e + 1, s.len() as int);
        lemma_cut_pieces(rest, d);
        assert forall|i: int| 0 <= i < cut_pieces(s, d).len() implies (#[trigger] cut_pieces(s, d)[i]).len()
            <= s.len() by {
            if i > 0 {
                assert(cut_pieces(s, d)[i] == cut_pieces(rest, d)[i - 1]);
            }
        }
    }
}

/// A piece is no longer than the text it is from.
pub proof fn lemma_pieces(s: Text, d: char)
    ensures
        forall|i: int| 0 <= i < pieces(s, d).len() ==> (#[trigger] pieces(s, d)[i]).len() <= s.len(),
{
    lemma_cut_pieces(s, d);
}

/// Where the first piece ends.
pub fn find_piece_end(cs: &Vec<char>, from: usize, d: char) -> (r: usize)
    requires
        from <= cs@.len(),
    ensures
        r == from + piece_end(cs@.subrange(from as int, cs@.len() as int), d, 0, outside()),
        from <= r <= cs@.len(),
{
    let n: usize = cs.len();
    let ghost s = cs@.subrange(from as int, n as int);
    let mut at: Cursor = Cursor::start();
    let mut i: usize = from;
    while i < n
        invariant
            from <= i <= n == cs@.len(),
            s == cs@.subrange(from as int, n as int),
            at.within(i - from),
            piece_end(s, d, 0, outside()) == piece_end(s, d, i - from, at@),
        decreases n - i,
    {
        let c: char = cs[i];
        assert(c == s[i - from]);
        let open = !at.skip;
        at.read(c, Ghost(i - from));
        if c == d && open && !at.quoted && at.brace == 0 && at.bracket == 0 {
            return i;
        }
        i += 1;
    }
    n
}

// ---------------------------------------------------------------------------
// Closing brackets, braces and quotes

/// The first closing bracket at or after `i` that leaves the reader outside of
/// brackets.
pub open spec fn bracket_close(s: Text, i: int, p: Place) -> Option<int>
    decreases s.len() - i,
{
    if i < 0 || i >= s.len() {
        None
    } else if s[i] == ']' && open_to(p, ']') && p.bracket == 1 {
        Some(i)
    } else {
        bracket_close(s, i + 1, step(p, s[i]))
    }
}

/// The bounds of `bracket_close`.
pub proof fn lemma_bracket_close(s: Text, i: int, p: Place)
    requires
        0 <= i <= s.len(),
    ensures
        bracket_close(s, i, p) matches Some(k) ==> i <= k < s.len() && s[k] == ']',
    decreases s.len() - i,
{
    if i < s.len() {
        lemma_bracket_close(s, i + 1, step(p, s[i]));
    }
}

/// The position of the bracket that closes the first one that opens at or after
/// `from`.
pub fn find_bracket_close(cs: &Vec<char>, from: usize) -> (r: Option<usize>)
    requires
        from <= cs@.len(),
    ensures
        match r {
            Some(k) => bracket_close(cs@, from as int, outside()) == Some(k as int) && from <= k
                < cs@.len() && cs@[k as int] == ']',
            None => bracket_close(cs@, from as int, outside()) is None,
        },
{
    let n: usize = cs.len();
    let mut at: Cursor = Cursor::start();
    let mut i: usize = from;
    while i < n
        invariant
            from <= i <= n == cs@.len(),
            at.within(i - from),
            bracket_close(cs@, from as int, outside()) == bracket_close(cs@, i as int, at@),
        decreases n - i,
    {
        let c: char = cs[i];
        if c == ']' && !at.skip && !at.quoted && at.bracket == 1 {
            return Some(i);
        }
        at.read(c, Ghost(i - from));
        i += 1;
    }
    None
}

/// The first pair of braces, one of which opens outside of braces and the other
/// of which closes it, when the reader stands at `i` and the last brace that
/// opened outside of braces is at `open`.
pub open spec fn brace_span(s: Text, i: int, p: Place, open: int) -> Option<(int, int)>
    decreases s.len() - i,
{
    if i < 0 || i >= s.len() {
        None
    } else if s[i] == '}' && open_to(p, '}') && p.brace == 1 {
        Some((open, i))
    } else if s[i] == '{' && open_to(p, '{') && p.brace == 0 {
        brace_span(s, i + 1, step(p, s[i]), i)
    } else {
        brace_span(s, i + 1, step(p, s[i]), open)
    }
}

/// What stands between the first braces that match.
pub open spec fn brace_content(s: Text) -> Option<Text> {
    match brace_span(s, 0, outside(), 0) {
        Some((a, b)) => Some(s.subrange(a + 1, b)),
        None => None,
    }
}

/// The bounds of `brace_span`.
pub proof fn lemma_brace_span(s: Text, i: int, p: Place, open: int)
    requires
        0 <= i <= s.len(),
        p.brace >= 1 ==> 0 <= open < i,
    ensures
        brace_span(s, i, p, open) matches Some((a, b)) ==> 0 <= a < b < s.len() && i <= b,
    decreases s.len() - i,
{
    if i < s.len() {
        if s[i] == '{' && open_to(p, '{') && p.brace == 0 {
            lemma_brace_span(s, i + 1, step(p, s[i]), i);
        } else {
            lemma_brace_span(s, i + 1, step(p, s[i]), open);
        }
    }
}

/// The positions of the first braces that match.
pub fn find_brace_span(cs: &Vec<char>) -> (r: Option<(usize, usize)>)
    ensures
        match r {
            Some((a, b)) => brace_span(cs@, 0, outside(), 0) == Some((a as int, b as int)) && a < b
                < cs@.len(),
            None => brace_span(cs@, 0, outside(), 0) is None,
        },
{
    let n: usize = cs.len();
    let mut at: Cursor = Cursor::start();
    let mut open: usize = 0;
    let mut i: usize = 0;
    while i < n
        invariant
            i <= n == cs@.len(),
            at.within(i as int),
            at.brace >= 1 ==> open < i,
            brace_span(cs@, 0, outside(), 0) == brace_span(cs@, i as int, at@, open as int),
        decreases n - i,
    {
        let c: char = cs[i];
        if c == '}' && !at.skip && !at.quoted && at.brace == 1 {
            return Some((open, i));
        }
        if c == '{' && !at.skip && !at.quoted && at.brace == 0 {
            open = i;
        }
        at.read(c, Ghost(i as int));
        i += 1;
    }
    None
}

/// The first position at or after `i` that holds `d` outside of quotes, or the
/// end.
pub open spec fn cell_end(s: Text, d: char, i: int, p: Place) -> int
    decreases s.len() - i,
{
    if i < 0 || i >= s.len() {
        s.len() as int
    } else if s[i] == d && open_to(p, d) {
        i
    } else {
        cell_end(s, d, i + 1, step(p, s[i]))
    }
}

/// Where the first cell ends.
pub(crate) fn find_cell_end(cs: &Vec<char>, from: usize, d: char) -> (r: usize)
    requires
        from <= cs@.len(),
    ensures
        r == from + cell_end(cs@.subrange(from as int, cs@.len() as int), d, 0, outside()),
        from <= r <= cs@.len(),
{
    let n: usize = cs.len();
    let ghost s = cs@.subrange(from as int, n as int);
    let mut at: Cursor = Cursor::start();
    let mut i: usize = from;
    while i < n
        invariant
            from <= i <= n == cs@.len(),
            s == cs@.subrange(from as int, n as int),
            at.within(i - from),
            cell_end(s, d, 0, outside()) == cell_end(s, d, i - from, at@),
        decreases n - i,
    {
        let c: char = cs[i];
        assert(c == s[i - from]);
        let open = !at.skip;
        at.read(c, Ghost(i - from));
        if c == d && open && !at.quoted {
            return i;
        }
        i += 1;
    }
    n
}

/// The bounds of `cell_end`.
pub proof fn lemma_cell_bounds(s: Text, d: char, i: int, p: Place)
    requires
        0 <= i <= s.len(),
    ensures
        i <= cell_end(s, d, i, p) <= s.len(),
        cell_end(s, d, i, p) < s.len() ==> s[cell_end(s, d, i, p)] == d,
    decreases s.len() - i,
{
    if i < s.len() && !(s[i] == d && open_to(p, d)) {
        lemma_cell_bounds(s, d, i + 1, step(p, s[i]));
    }
}

/// The first quote at or after `i` that no backslash escapes.
pub open spec fn quote_close(s: Text, i: int) -> Option<int>
    decreases s.len() - i,
{
    if i < 0 || i >= s.len() {
        None
    } else if s[i] == '"' {
        Some(i)
    } else if s[i] == '\\' && i + 1 < s.len() {
        quote_close(s, i + 2)
    } else {
        quote_close(s, i + 1)
    }
}

/// The bounds of `quote_close`.
pub proof fn lemma_quote_close(s: Text, i: int)
    requires
        0 <= i,
    ensures
        quote_close(s, i) matches Some(k) ==> i <= k < s.len() && s[k] == '"',
    decreases s.len() - i,
{
    if i < s.len() {
        if s[i] == '\\' && i + 1 < s.len() {
            lemma_quote_close(s, i + 2);
        } else if s[i] != '"' {
            lemma_quote_close(s, i + 1);
        }
    }
}

/// Where what stands behind a text in quotes at the start of `s` begins: at the
/// start where there is no such text.
pub open spec fn behind_quotes(s: Text) -> int {
    if s.len() > 0 && s[0] == '"' {
        match quote_close(s, 1) {
            Some(q) => q + 1,
            None => 0,
        }
    } else {
        0
    }
}

/// The bounds of `behind_quotes`.
pub proof fn lemma_behind_quotes(s: Text)
    ensures
        0 <= behind_quotes(s) <= s.len(),
{
    lemma_quote_close(s, 1);
}

/// Whether a colon stands in `s`, behind the text in quotes at its start where
/// there is one.
pub open spec fn has_colon(s: Text) -> bool {
    find_from(s, ':', behind_quotes(s)) is Some
}

/// The position of the quote that closes what begins at `from`.
pub fn find_quote_close(cs: &Vec<char>, from: usize) -> (r: Option<usize>)
    ensures
        match r {
            Some(k) => quote_close(cs@, from as int) == Some(k as int) && from <= k < cs@.len()
                && cs@[k as int] == '"',
            None => quote_close(cs@, from as int) is None,
        },
{
    let n: usize = cs.len();
    let mut i: usize = from;
    while i < n
        invariant
            from <= i,
            n == cs@.len(),
            quote_close(cs@, from as int) == quote_close(cs@, i as int),
        decreases n - i,
    {
        let c: char = cs[i];
        if c == '"' {
            return Some(i);
        }
        if c == '\\' && n - i > 1 {
            i += 2;
        } else {
            i += 1;
        }
    }
    None
}

/// Where what stands behind a text in quotes at the start begins.
pub(crate) fn find_behind_quotes(cs: &Vec<char>) -> (r: usize)
    ensures
        r == behind_quotes(cs@),
        r <= cs@.len(),
{
    if cs.len() > 0 && cs[0] == '"' {
        match find_quote_close(cs, 1) {
            Some(q) => q + 1,
            None => 0,
        }
    } else {
        0
    }
}

/// Whether a colon stands in `s`, behind the text in quotes at its start where
/// there is one.
pub(crate) fn holds_colon(s: &str) -> (r: bool)
    ensures
        r == has_colon(s@),
{
    let cs = chars_of(s);
    position_from(&cs, ':', find_behind_quotes(&cs)).is_some()
}

// ---------------------------------------------------------------------------
// Escapes

/// What the escape of `c` stands for: one character, or the escape itself.
pub open spec fn unescaped(c: char) -> Text {
    if c == '\\' || c == '"' || c == ';' {
        seq![c]
    } else if c == 'n' {
        seq!['\n']
    } else if c == 'r' {
        seq!['\r']
    } else if c == 't' {
        seq!['\t']
    } else {
        seq!['\\', c]
    }
}

/// `s` with its escapes replaced by what they stand for.
pub open spec fn unescape(s: Text) -> Text
    decreases s.len(),
{
    if s.len() == 0 {
        seq![]
    } else if s[0] == '\\' && s.len() > 1 {
        unescaped(s[1]) + unescape(s.subrange(2, s.len() as int))
    } else {
        seq![s[0]] + unescape(s.subrange(1, s.len() as int))
    }
}

/// How `c` is written inside quotes.
pub open spec fn escaped(c: char) -> Text {
    if c == '\\' || c == '"' || c == ';' {
        seq!['\\', c]
    } else if c == '\n' {
        seq!['\\', 'n']
    } else if c == '\r' {
        seq!['\\', 'r']
    } else if c == '\t' {
        seq!['\\', 't']
    } else {
        seq![c]
    }
}

/// How `s` is written inside quotes.
pub open spec fn escape(s: Text) -> Text
    decreases s.len(),
{
    if s.len() == 0 {
        seq![]
    } else {
        escaped(s[0]) + escape(s.subrange(1, s.len() as int))
    }
}

/// The characters between two positions with their escapes replaced.
pub fn unescape_part(cs: &Vec<char>, from: usize, to: usize) -> (r: String)
    requires
        from <= to <= cs@.len(),
    ensures
        r@ == unescape(cs@.subrange(from as int, to as int)),
{
    let mut out: String = String::new();
    let mut i: usize = from;
    let ghost s = cs@.subrange(from as int, to as int);
    assert(s.subrange(0, s.len() as int) =~= s);
    while i < to
        invariant
            from <= i <= to <= cs@.len(),
            s == cs@.subrange(from as int, to as int),
            unescape(s) == out@ + unescape(s.subrange(i - from, s.len() as int)),
        decreases to - i,
    {
        let c: char = cs[i];
        let ghost rest = s.subrange(i - from, s.len() as int);
        let ghost before = out@;
        if c == '\\' && i + 1 < to {
            let e: char = cs[i + 1];
            assert(rest[1] == e);
            assert(rest.subrange(2, rest.len() as int) =~= s.subrange(i + 2 - from, s.len() as int));
            if e == '\\' || e == '"' || e == ';' {
                out.push(e);
            } else if e == 'n' {
                out.push('\n');
            } else if e == 'r' {
                out.push('\r');
            } else if e == 't' {
                out.push('\t');
            } else {
                out.push('\\');
                out.push(e);
            }
            assert(out@ =~= before + unescaped(e));
            i += 2;
            assert(before + (unescaped(e) + unescape(s.subrange(i - from, s.len() as int))) =~= out@
                + unescape(s.subrange(i - from, s.len() as int)));
        } else {
            assert(rest.subrange(1, rest.len() as int) =~= s.subrange(i + 1 - from, s.len() as int));
            out.push(c);
            i += 1;
            assert(before + (seq![c] + unescape(s.subrange(i - from, s.len() as int))) =~= out@
                + unescape(s.subrange(i - from, s.len() as int)));
        }
    }
    assert(out@ + unescape(s.subrange(s.len() as int, s.len() as int)) =~= out@);
    out
}

/// Appends `s` as it is written inside quotes.
pub fn push_escaped(out: &mut String, s: &str)
    ensures
        final(out)@ == old(out)@ + escape(s@),
{
    let cs = crate::text::chars_of(s);
    let n: usize = cs.len();
    let mut i: usize = 0;
    assert(s@.subrange(0, n as int) =~= s@);
    while i < n
        invariant
            i <= n == cs@.len(),
            cs@ == s@,
            old(out)@ + escape(s@) == out@ + escape(s@.subrange(i as int, n as int)),
        decreases n - i,
    {
        let c: char = cs[i];
        let ghost rest = s@.subrange(i as int, n as int);
        let ghost before = out@;
        assert(rest.subrange(1, rest.len() as int) =~= s@.subrange(i + 1, n as int));
        if c == '\\' || c == '"' || c == ';' {
            out.push('\\');
            out.push(c);
        } else if c == '\n' {
            out.push('\\');
            out.push('n');
        } else if c == '\r' {
            out.push('\\');
            out.push('r');
        } else if c == '\t' {
            out.push('\\');
            out.push('t');
        } else {
            out.push(c);
        }
        assert(out@ =~= before + escaped(c));
        i += 1;
        assert(before + (escaped(c) + escape(s@.subrange(i as int, n as int))) =~= out@ + escape(
            s@.subrange(i as int, n as int),
        ));
    }
    assert(out@ + escape(s@.subrange(n as int, n as int)) =~= out@);
}

/// What was escaped is read back: unescaping undoes escaping.
pub proof fn unescape_undoes_escape(s: Text)
    ensures
        unescape(escape(s)) == s,
    decreases s.len(),
{
    if s.len() > 0 {
        let rest = s.subrange(1, s.len() as int);
        unescape_undoes_escape(rest);
        let e = escaped(s[0]);
        let t = escape(s);
        assert(t =~= e + escape(rest));
        if e.len() == 2 {
            assert(t.subrange(2, t.len() as int) =~= escape(rest));
            assert(unescaped(e[1]) =~= seq![s[0]]);
        } else {
            assert(t.subrange(1, t.len() as int) =~= escape(rest));
        }
        assert(seq![s[0]] + rest =~= s);
    } else {
        assert(s =~= seq![]);
    }
}

} // verus!
