use vstd::prelude::*;
use vstd::string::*;

verus! {

/// The characters with the Unicode property `White_Space`.
pub open spec fn is_white_space(c: char) -> bool {
    ||| '\u{9}' <= c <= '\u{d}'
    ||| c == ' '
    ||| c == '\u{85}'
    ||| c == '\u{a0}'
    ||| c == '\u{1680}'
    ||| '\u{2000}' <= c <= '\u{200a}'
    ||| c == '\u{2028}'
    ||| c == '\u{2029}'
    ||| c == '\u{202f}'
    ||| c == '\u{205f}'
    ||| c == '\u{3000}'
}

/// `s` without its leading and trailing white space.
pub open spec fn trim_text(s: Seq<char>) -> Seq<char>
    decreases s.len(),
{
    if s.len() == 0 {
        s
    } else if is_white_space(s[0]) {
        trim_text(s.drop_first())
    } else if is_white_space(s.last()) {
        trim_text(s.drop_last())
    } else {
        s
    }
}

/// Tells whether `c` has the Unicode property `White_Space`.
fn white_space(c: char) -> (b: bool)
    ensures
        b == is_white_space(c),
{
    ('\u{9}' <= c && c <= '\u{d}') || c == ' ' || c == '\u{85}' || c == '\u{a0}' || c == '\u{1680}'
        || ('\u{2000}' <= c && c <= '\u{200a}') || c == '\u{2028}' || c == '\u{2029}'
        || c == '\u{202f}' || c == '\u{205f}' || c == '\u{3000}'
}

proof fn lemma_trim_all_space(s: Seq<char>)
    requires
        forall|t: int| 0 <= t < s.len() ==> is_white_space(#[trigger] s[t]),
    ensures
        trim_text(s) == Seq::<char>::empty(),
    decreases s.len(),
{
    if s.len() > 0 {
        assert(is_white_space(s[0]));
        lemma_trim_all_space(s.drop_first());
    } else {
        assert(s =~= Seq::<char>::empty());
    }
}

/// With white space before `i` and from `j` on, and none at either end of the
/// part between, trimming leaves that part.
proof fn lemma_trim_bounds(s: Seq<char>, i: int, j: int)
    requires
        0 <= i <= j <= s.len(),
        forall|t: int| 0 <= t < i ==> is_white_space(#[trigger] s[t]),
        forall|t: int| j <= t < s.len() ==> is_white_space(#[trigger] s[t]),
        i < j ==> !is_white_space(s[i]) && !is_white_space(s[j - 1]),
    ensures
        trim_text(s) == s.subrange(i, j),
    decreases s.len(),
{
    if i == j {
        assert forall|t: int| 0 <= t < s.len() implies is_white_space(#[trigger] s[t]) by {
            if t >= i {
                assert(j <= t);
            }
        }
        lemma_trim_all_space(s);
        assert(s.subrange(i, j) =~= Seq::<char>::empty());
    } else if i > 0 {
        assert(is_white_space(s[0]));
        let d = s.drop_first();
        assert forall|t: int| 0 <= t < i - 1 implies is_white_space(#[trigger] d[t]) by {
            assert(d[t] == s[t + 1]);
        }
        assert forall|t: int| j - 1 <= t < d.len() implies is_white_space(#[trigger] d[t]) by {
            assert(d[t] == s[t + 1]);
        }
        lemma_trim_bounds(d, i - 1, j - 1);
        assert(d.subrange(i - 1, j - 1) =~= s.subrange(i, j));
    } else if j < s.len() {
        assert(!is_white_space(s[0]));
        assert(is_white_space(s.last()));
        let d = s.drop_last();
        lemma_trim_bounds(d, i, j);
        assert(d.subrange(i, j) =~= s.subrange(i, j));
    } else {
        assert(s.subrange(i, j) =~= s);
    }
}

/// Trimming takes away exactly the Unicode `White_Space` characters: the controls
/// from tab to carriage return, the space, next line, no-break space, ogham space
/// mark, the spaces from en quad to hair space, the line and paragraph separators,
/// the narrow no-break space, the medium mathematical space and the ideographic
/// space; at either end of a text each of them goes, and any other character stays.
pub proof fn lemma_trim_takes_white_space(s: Seq<char>, c: char)
    ensures
        is_white_space(c) <==> {
            ||| c == '\t' || c == '\n' || c == '\u{b}' || c == '\u{c}' || c == '\r'
            ||| c == ' ' || c == '\u{85}' || c == '\u{a0}' || c == '\u{1680}'
            ||| c == '\u{2000}' || c == '\u{2001}' || c == '\u{2002}' || c == '\u{2003}'
            ||| c == '\u{2004}' || c == '\u{2005}' || c == '\u{2006}' || c == '\u{2007}'
            ||| c == '\u{2008}' || c == '\u{2009}' || c == '\u{200a}'
            ||| c == '\u{2028}' || c == '\u{2029}' || c == '\u{202f}' || c == '\u{205f}'
            ||| c == '\u{3000}'
        },
        is_white_space(c) ==> trim_text(seq![c] + s) == trim_text(s),
        is_white_space(c) ==> trim_text(s.push(c)) == trim_text(s),
        !is_white_space(c) ==> trim_text(seq![c]) == seq![c],
{
    let t = trim_text(s);
    let (i, j) = lemma_trim_span(s);
    if is_white_space(c) {
        let a = seq![c] + s;
        assert forall|x: int| 0 <= x < i + 1 implies is_white_space(#[trigger] a[x]) by {
            if x > 0 {
                assert(a[x] == s[x - 1]);
            }
        }
        assert forall|x: int| j + 1 <= x < a.len() implies is_white_space(#[trigger] a[x]) by {
            assert(a[x] == s[x - 1]);
        }
        if i < j {
            assert(a[i + 1] == s[i]);
            assert(a[j] == s[j - 1]);
        }
        lemma_trim_bounds(a, i + 1, j + 1);
        assert(a.subrange(i + 1, j + 1) =~= s.subrange(i, j));
        let b = s.push(c);
        assert forall|x: int| 0 <= x < i implies is_white_space(#[trigger] b[x]) by {
            assert(b[x] == s[x]);
        }
        assert forall|x: int| j <= x < b.len() implies is_white_space(#[trigger] b[x]) by {
            if x < s.len() {
                assert(b[x] == s[x]);
            }
        }
        if i < j {
            assert(b[i] == s[i]);
            assert(b[j - 1] == s[j - 1]);
        }
        lemma_trim_bounds(b, i, j);
        assert(b.subrange(i, j) =~= s.subrange(i, j));
    } else {
        lemma_trim_bounds(seq![c], 0, 1);
        assert(seq![c].subrange(0, 1) =~= seq![c]);
    }
}

/// Trimming leaves the part of a text between its leading and its trailing white
/// space: white space before and after it, none at either end of it.
proof fn lemma_trim_span(s: Seq<char>) -> (r: (int, int))
    ensures
        0 <= r.0 <= r.1 <= s.len(),
        forall|t: int| 0 <= t < r.0 ==> is_white_space(#[trigger] s[t]),
        forall|t: int| r.1 <= t < s.len() ==> is_white_space(#[trigger] s[t]),
        r.0 < r.1 ==> !is_white_space(s[r.0]) && !is_white_space(s[r.1 - 1]),
        trim_text(s) == s.subrange(r.0, r.1),
    decreases s.len(),
{
    if s.len() == 0 {
        assert(s.subrange(0, 0) =~= s);
        (0, 0)
    } else if is_white_space(s[0]) {
        let d = s.drop_first();
        let (i, j) = lemma_trim_span(d);
        assert forall|t: int| 0 <= t < i + 1 implies is_white_space(#[trigger] s[t]) by {
            if t > 0 {
                assert(s[t] == d[t - 1]);
            }
        }
        assert forall|t: int| j + 1 <= t < s.len() implies is_white_space(#[trigger] s[t]) by {
            assert(s[t] == d[t - 1]);
        }
        if i < j {
            assert(s[i + 1] == d[i]);
            assert(s[j] == d[j - 1]);
        }
        assert(d.subrange(i, j) =~= s.subrange(i + 1, j + 1));
        (i + 1, j + 1)
    } else if is_white_space(s.last()) {
        let d = s.drop_last();
        let (i, j) = lemma_trim_span(d);
        assert forall|t: int| 0 <= t < i implies is_white_space(#[trigger] s[t]) by {
            assert(s[t] == d[t]);
        }
        assert forall|t: int| j <= t < s.len() implies is_white_space(#[trigger] s[t]) by {
            if t < d.len() {
                assert(s[t] == d[t]);
            }
        }
        if i < j {
            assert(s[i] == d[i]);
            assert(s[j - 1] == d[j - 1]);
        }
        assert(d.subrange(i, j) =~= s.subrange(i, j));
        (i, j)
    } else {
        assert(s.subrange(0, s.len() as int) =~= s);
        (0, s.len() as int)
    }
}

/// `s` without its leading and trailing white space.
pub fn trimmed(s: &str) -> (r: &str)
    ensures
        r@ == trim_text(s@),
{
    let n = s.unicode_len();
    let mut i: usize = 0;
    while i < n && white_space(s.get_char(i))
        invariant
            n == s@.len(),
            i <= n,
            forall|t: int| 0 <= t < i ==> is_white_space(#[trigger] s@[t]),
        decreases n - i,
    {
        i = i + 1;
    }
    let mut j: usize = n;
    while j > i && white_space(s.get_char(j - 1))
        invariant
            n == s@.len(),
            i <= j <= n,
            forall|t: int| j <= t < n ==> is_white_space(#[trigger] s@[t]),
        decreases j - i,
    {
        j = j - 1;
    }
    proof {
        lemma_trim_bounds(s@, i as int, j as int);
    }
    s.substring_char(i, j)
}

/// Tells whether two texts are equal, character by character.
fn same_text(a: &str, b: &str) -> (r: bool)
    ensures
        r == (a@ == b@),
{
    let n = a.unicode_len();
    if n != b.unicode_len() {
        return false;
    }
    let mut i: usize = 0;
    while i < n
        invariant
            n == a@.len(),
            n == b@.len(),
            i <= n,
            forall|j: int| 0 <= j < i ==> a@[j] == b@[j],
        decreases n - i,
    {
        if a.get_char(i) != b.get_char(i) {
            return false;
        }
        i = i + 1;
    }
    assert(a@ =~= b@);
    true
}

/// The payload of a `data: ` line of an event stream: the rest of the line.
pub open spec fn data_payload(line: Seq<char>) -> Option<Seq<char>> {
    let prefix = "data: "@;
    if line.len() >= prefix.len() && line.take(prefix.len() as int) == prefix {
        Some(line.skip(prefix.len() as int))
    } else {
        None
    }
}

/// The payload of `line` when it is a `data: ` line.
pub fn data_line(line: &str) -> (r: Option<&str>)
    ensures
        match r {
            Some(p) => data_payload(line@) == Some(p@),
            None => data_payload(line@) is None,
        },
{
    proof {
        reveal_strlit("data: ");
    }
    let prefix = "data: ";
    let n = line.unicode_len();
    let m = prefix.unicode_len();
    if n < m {
        return None;
    }
    let mut i: usize = 0;
    while i < m
        invariant
            n == line@.len(),
            m == prefix@.len(),
            prefix@ == "data: "@,
            m <= n,
            i <= m,
            forall|j: int| 0 <= j < i ==> line@[j] == prefix@[j],
        decreases m - i,
    {
        if line.get_char(i) != prefix.get_char(i) {
            assert(line@.take(m as int)[i as int] != prefix@[i as int]);
            return None;
        }
        i = i + 1;
    }
    assert(line@.take(m as int) =~= prefix@);
    Some(line.substring_char(m, n))
}

/// What the reader of a chat completion stream does after a line.
pub enum LineStep {
    /// Read the next line.
    More,
    /// The stream announced its end.
    Done,
    /// The lines gathered so far form one message, to be parsed.
    Message(String),
}

/// The `data: ` lines of the event being read, gathered.
pub struct EventBuffer {
    data: String,
}

/// The text that marks the end of a chat completion stream.
pub open spec fn done_mark() -> Seq<char> {
    "[DONE]"@
}

impl EventBuffer {
    /// The payloads gathered so far, each followed by a line break.
    pub closed spec fn gathered(&self) -> Seq<char> {
        self.data@
    }

    /// A buffer with nothing gathered.
    pub fn new() -> (b: Self)
        ensures
            b.gathered() == Seq::<char>::empty(),
    {
        EventBuffer { data: String::new() }
    }

    /// Takes the next line of the stream. A `data: ` line adds its payload and a
    /// line break to the event. Any other line ends the event: an event that reads
    /// `[DONE]`, white space aside, ends the stream; any other event is handed out
    /// as a message, and the buffer starts afresh.
    pub fn on_line(&mut self, line: &str) -> (s: LineStep)
        ensures
            match data_payload(line@) {
                Some(p) => s is More && final(self).gathered() == old(self).gathered() + p + "\n"@,
                None => if trim_text(old(self).gathered()) == done_mark() {
                    s is Done && final(self).gathered() == old(self).gathered()
                } else {
                    final(self).gathered() == Seq::<char>::empty() && (s matches LineStep::Message(m)
                        && m@ == old(self).gathered())
                },
            },
    {
        proof {
            reveal_strlit("\n");
            reveal_strlit("[DONE]");
        }
        match data_line(line) {
            Some(chunk) => {
                self.data.append(chunk);
                self.data.append("\n");
                LineStep::More
            },
            None => {
                if same_text(trimmed(self.data.as_str()), "[DONE]") {
                    LineStep::Done
                } else {
                    let mut m = String::new();
                    std::mem::swap(&mut m, &mut self.data);
                    LineStep::Message(m)
                }
            },
        }
    }
}

} // verus!
