//! Text rules: Unicode whitespace, trimming, case folding, and counting the
//! non-blank lines of a player's output.

use vstd::prelude::*;

verus! {

/// The characters with the Unicode `White_Space` property.
pub open spec fn is_white_space(c: char) -> bool {
    let u = c as u32;
    ||| 0x09 <= u <= 0x0D
    ||| u == 0x20
    ||| u == 0x85
    ||| u == 0xA0
    ||| u == 0x1680
    ||| 0x2000 <= u <= 0x200A
    ||| u == 0x2028
    ||| u == 0x2029
    ||| u == 0x202F
    ||| u == 0x205F
    ||| u == 0x3000
}

/// Whether `c` is whitespace: the same answer as `char::is_whitespace`,
/// which is documented to hold exactly for the `White_Space` characters.
pub fn char_is_whitespace(c: char) -> (b: bool)
    ensures
        b == is_white_space(c),
        b == ((0x09 <= c as u32 <= 0x0D) || c as u32 == 0x20 || c as u32 == 0x85 || c as u32 == 0xA0
            || c as u32 == 0x1680 || (0x2000 <= c as u32 <= 0x200A) || c as u32 == 0x2028 || c as u32
            == 0x2029 || c as u32 == 0x202F || c as u32 == 0x205F || c as u32 == 0x3000),
{
    let u = c as u32;
    (0x09 <= u && u <= 0x0D) || u == 0x20 || u == 0x85 || u == 0xA0 || u == 0x1680 || (0x2000 <= u
        && u <= 0x200A) || u == 0x2028 || u == 0x2029 || u == 0x202F || u == 0x205F || u == 0x3000
}

/// `s` without its leading whitespace.
pub open spec fn trim_start_ws(s: Seq<char>) -> Seq<char>
    decreases s.len(),
{
    if s.len() > 0 && is_white_space(s[0]) {
        trim_start_ws(s.drop_first())
    } else {
        s
    }
}

/// `s` without its trailing whitespace.
pub open spec fn trim_end_ws(s: Seq<char>) -> Seq<char>
    decreases s.len(),
{
    if s.len() > 0 && is_white_space(s.last()) {
        trim_end_ws(s.drop_last())
    } else {
        s
    }
}

/// `s` without leading and trailing whitespace.
pub open spec fn trim_ws(s: Seq<char>) -> Seq<char> {
    trim_end_ws(trim_start_ws(s))
}

/// `s` with leading and trailing whitespace removed, through `str::trim`.
///
/// Trusted: `str::trim` is documented to remove leading and trailing
/// characters with the Unicode `White_Space` property, and nothing else.
#[verifier::external_body]
pub(crate) fn trim_str(s: &str) -> (r: &str)
    ensures
        r@ == trim_ws(s@),
{
    s.trim()
}

/// What `str::to_lowercase` returns for the characters `s`: the Unicode
/// lowercase mapping, applied character by character with the context
/// rules of the final sigma.
pub uninterp spec fn unicode_lowercase(s: Seq<char>) -> Seq<char>;

/// The lowercase form of `s`, through `str::to_lowercase`.
///
/// Trusted: the result depends on the characters of `s` alone; what it is
/// is left to the name `unicode_lowercase`.
#[verifier::external_body]
pub(crate) fn lowercase(s: &str) -> (r: String)
    ensures
        r@ == unicode_lowercase(s@),
{
    s.to_lowercase()
}

/// What `String::from_utf8_lossy` decodes from `bytes`: the UTF-8 text,
/// with each invalid sequence replaced by U+FFFD.
pub uninterp spec fn utf8_lossy(bytes: Seq<u8>) -> Seq<char>;

/// Decodes `bytes` as UTF-8, replacing invalid sequences, through
/// `String::from_utf8_lossy`.
///
/// Trusted: the result depends on the bytes alone; what it is is left to
/// the name `utf8_lossy`, except that bytes that are valid UTF-8 decode to
/// their text, as the documentation states.
#[verifier::external_body]
pub(crate) fn decode_utf8_lossy(bytes: &[u8]) -> (r: String)
    ensures
        r@ == utf8_lossy(bytes@),
        vstd::utf8::valid_utf8(bytes@) ==> r@ == vstd::utf8::decode_utf8(bytes@),
{
    String::from_utf8_lossy(bytes).into_owned()
}

/// The characters of `s`, in order.
pub fn chars_of(s: &str) -> (v: Vec<char>)
    ensures
        v@ == s@,
{
    broadcast use vstd::string::axiom_spec_iter;
    let mut v: Vec<char> = Vec::new();
    for c in it: s.chars()
        invariant
            v@.len() == it.index(),
            forall|i: int| 0 <= i < v@.len() ==> v@[i] == it.seq()[i],
    {
        v.push(c);
    }
    assert(v@ =~= s@);
    v
}

/// Position `i` of `s` holds the first character of its line that is not
/// whitespace (lines end at `'\n'`).
pub open spec fn starts_line_content(s: Seq<char>, i: int) -> bool {
    &&& 0 <= i < s.len()
    &&& !is_white_space(s[i])
    &&& forall|j: int|
        0 <= j < i && (forall|k: int| j <= k < i ==> s[k] != '\n') ==> is_white_space(#[trigger] s[j])
}

/// The number of lines among the first `n` characters of `s` that already
/// hold a character that is not whitespace.
pub open spec fn content_lines_within(s: Seq<char>, n: nat) -> nat
    decreases n,
{
    if n == 0 {
        0
    } else {
        content_lines_within(s, (n - 1) as nat) + if starts_line_content(s, n - 1) {
            1nat
        } else {
            0nat
        }
    }
}

/// The number of lines of `s` (split at `'\n'`) that are not blank, that is,
/// that hold a character that is not whitespace.
pub open spec fn content_line_count(s: Seq<char>) -> nat {
    content_lines_within(s, s.len())
}

proof fn lemma_starts_depends_on_prefix(s: Seq<char>, u: Seq<char>, i: int)
    requires
        0 <= i < s.len(),
        i < u.len(),
        forall|k: int| 0 <= k <= i ==> s[k] == u[k],
    ensures
        starts_line_content(s, i) == starts_line_content(u, i),
{
    if starts_line_content(s, i) {
        assert forall|j: int|
            0 <= j < i && (forall|k: int| j <= k < i ==> u[k] != '\n') implies is_white_space(#[trigger] u[j]) by {
            assert(forall|k: int| j <= k < i ==> s[k] == u[k]);
            assert(forall|k: int| j <= k < i ==> s[k] != '\n');
            assert(is_white_space(s[j]));
        }
    }
    if starts_line_content(u, i) {
        assert forall|j: int|
            0 <= j < i && (forall|k: int| j <= k < i ==> s[k] != '\n') implies is_white_space(#[trigger] s[j]) by {
            assert(forall|k: int| j <= k < i ==> s[k] == u[k]);
            assert(forall|k: int| j <= k < i ==> u[k] != '\n');
            assert(is_white_space(u[j]));
        }
    }
}

proof fn lemma_within_depends_on_prefix(s: Seq<char>, u: Seq<char>, n: nat)
    requires
        n <= s.len(),
        n <= u.len(),
        forall|k: int| 0 <= k < n ==> s[k] == u[k],
    ensures
        content_lines_within(s, n) == content_lines_within(u, n),
    decreases n,
{
    if n > 0 {
        lemma_within_depends_on_prefix(s, u, (n - 1) as nat);
        lemma_starts_depends_on_prefix(s, u, n - 1);
    }
}

proof fn lemma_starts_shift_forward(c: Seq<char>, b: Seq<char>, off: int, k: int)
    requires
        1 <= off,
        c.len() == off + b.len(),
        0 <= k < b.len(),
        forall|t: int| off <= t < c.len() ==> #[trigger] c[t] == b[t - off],
        starts_line_content(c, off + k),
    ensures
        starts_line_content(b, k),
{
    let i = off + k;
    assert(c[i] == b[k]);
    assert forall|j: int|
        0 <= j < k && (forall|t: int| j <= t < k ==> b[t] != '\n') implies is_white_space(#[trigger] b[j]) by {
        assert forall|t: int| j + off <= t < i implies c[t] != '\n' by {
            assert(c[t] == b[t - off]);
        }
        assert(c[j + off] == b[j]);
    }
}

proof fn lemma_starts_shift_back(c: Seq<char>, b: Seq<char>, off: int, k: int)
    requires
        1 <= off,
        c.len() == off + b.len(),
        0 <= k < b.len(),
        c[off - 1] == '\n',
        forall|t: int| off <= t < c.len() ==> #[trigger] c[t] == b[t - off],
        starts_line_content(b, k),
    ensures
        starts_line_content(c, off + k),
{
    let i = off + k;
    assert(c[i] == b[k]);
    assert forall|j: int|
        0 <= j < i && (forall|t: int| j <= t < i ==> c[t] != '\n') implies is_white_space(#[trigger] c[j]) by {
        if j < off {
            assert(c[off - 1] != '\n');
        } else {
            assert forall|t: int| j - off <= t < k implies b[t] != '\n' by {
                assert(c[t + off] == b[t]);
            }
            assert(c[j] == b[j - off]);
        }
    }
}

proof fn lemma_starts_after_newline(a: Seq<char>, b: Seq<char>, k: int)
    requires
        0 <= k < b.len(),
    ensures
        starts_line_content(a + seq!['\n'] + b, a.len() + 1 + k) == starts_line_content(b, k),
{
    let c = a + seq!['\n'] + b;
    let off: int = a.len() as int + 1;
    assert(c.len() == off + b.len());
    assert(c[off - 1] == '\n');
    assert forall|t: int| off <= t < c.len() implies #[trigger] c[t] == b[t - off] by {}
    if starts_line_content(c, off + k) {
        lemma_starts_shift_forward(c, b, off, k);
    }
    if starts_line_content(b, k) {
        lemma_starts_shift_back(c, b, off, k);
    }
}

proof fn lemma_within_after_newline(a: Seq<char>, b: Seq<char>, k: nat)
    requires
        k <= b.len(),
    ensures
        content_lines_within(a + seq!['\n'] + b, (a.len() + 1 + k) as nat) == content_line_count(a)
            + content_lines_within(b, k),
    decreases k,
{
    let c = a + seq!['\n'] + b;
    if k == 0 {
        lemma_within_depends_on_prefix(a, c, a.len());
        assert(c[a.len() as int] == '\n');
        assert(!starts_line_content(c, a.len() as int));
        assert((a.len() + 1 + k) as nat - 1 == a.len());
    } else {
        lemma_within_after_newline(a, b, (k - 1) as nat);
        lemma_starts_after_newline(a, b, k - 1);
        assert((a.len() + 1 + k) as nat - 1 == a.len() + 1 + (k - 1));
    }
}

/// Joining two texts with a line break adds up their non-blank lines.
pub proof fn lemma_content_lines_join(a: Seq<char>, b: Seq<char>)
    ensures
        content_line_count(a + seq!['\n'] + b) == content_line_count(a) + content_line_count(b),
{
    lemma_within_after_newline(a, b, b.len());
    assert((a + seq!['\n'] + b).len() == a.len() + 1 + b.len());
}

proof fn lemma_single_line_within(s: Seq<char>, n: nat)
    requires
        n <= s.len(),
        forall|i: int| 0 <= i < s.len() ==> s[i] != '\n',
    ensures
        content_lines_within(s, n) == if exists|i: int| 0 <= i < n && !is_white_space(#[trigger] s[i]) {
            1nat
        } else {
            0nat
        },
    decreases n,
{
    if n > 0 {
        let m = (n - 1) as nat;
        lemma_single_line_within(s, m);
        if exists|i: int| 0 <= i < m && !is_white_space(#[trigger] s[i]) {
            let w = choose|i: int| 0 <= i < m && !is_white_space(#[trigger] s[i]);
            assert(forall|k: int| w <= k < m ==> s[k] != '\n');
            assert(!starts_line_content(s, m as int));
            assert(0 <= w < n && !is_white_space(s[w]));
        } else {
            if !is_white_space(s[m as int]) {
                assert(starts_line_content(s, m as int));
                assert(0 <= m < n && !is_white_space(s[m as int]));
            } else {
                assert(!starts_line_content(s, m as int));
                assert forall|i: int| 0 <= i < n implies is_white_space(#[trigger] s[i]) by {
                    if i < m {
                        assert(!(0 <= i < m && !is_white_space(s[i])));
                    }
                }
            }
        }
    }
}

/// A text without line breaks is one non-blank line when it holds a
/// character that is not whitespace, and no line otherwise.
pub proof fn lemma_content_lines_single(s: Seq<char>)
    requires
        forall|i: int| 0 <= i < s.len() ==> s[i] != '\n',
    ensures
        content_line_count(s) == if exists|i: int| 0 <= i < s.len() && !is_white_space(#[trigger] s[i]) {
            1nat
        } else {
            0nat
        },
{
    lemma_single_line_within(s, s.len());
}

/// Counts the lines of `text` that are not blank after trimming.
pub fn count_content_lines(text: &str) -> (n: usize)
    ensures
        n == content_line_count(text@),
{
    let v = chars_of(text);
    let len = v.len();
    let ghost s = v@;
    let mut count: usize = 0;
    let mut line_start: usize = 0;
    let mut seen = false;
    for i in 0..len
        invariant
            len == s.len(),
            s == v@,
            count == content_lines_within(s, i as nat),
            count <= i,
            line_start <= i,
            line_start == 0 || s[line_start - 1] == '\n',
            forall|k: int| line_start <= k < i ==> s[k] != '\n',
            seen <==> exists|j: int| line_start <= j < i && !is_white_space(#[trigger] s[j]),
    {
        let c = v[i];
        let ws = char_is_whitespace(c);
        proof {
            lemma_line_content_step(s, i as int, line_start as int, seen);
        }
        if !ws && !seen {
            count = count + 1;
        }
        if c == '\n' {
            line_start = i + 1;
            seen = false;
        } else if !ws {
            seen = true;
            assert(!is_white_space(s[i as int]));
        } else {
            assert forall|j: int| line_start <= j < i + 1 && !is_white_space(#[trigger] s[j]) implies line_start <= j < i by {}
        }
    }
    count
}

proof fn lemma_line_content_step(s: Seq<char>, i: int, line_start: int, seen: bool)
    requires
        0 <= line_start <= i < s.len(),
        line_start == 0 || s[line_start - 1] == '\n',
        forall|k: int| line_start <= k < i ==> s[k] != '\n',
        seen <==> exists|j: int| line_start <= j < i && !is_white_space(#[trigger] s[j]),
    ensures
        starts_line_content(s, i) <==> (!is_white_space(s[i]) && !seen),
{
    if seen {
        let j = choose|j: int| line_start <= j < i && !is_white_space(#[trigger] s[j]);
        assert(forall|k: int| j <= k < i ==> s[k] != '\n');
    } else if !is_white_space(s[i]) {
        assert forall|j: int|
            0 <= j < i && (forall|k: int| j <= k < i ==> s[k] != '\n') implies is_white_space(#[trigger] s[j]) by {
            if j < line_start {
                assert(s[line_start - 1] == '\n');
            } else {
                assert(!(line_start <= j < i && !is_white_space(s[j])));
            }
        }
    }
}

/// The number of entries in the player's queue, read from the text that
/// its remote control printed for the queue: one entry per non-blank line.
pub fn queue_entry_count(output: &[u8]) -> (n: usize)
    ensures
        n == content_line_count(utf8_lossy(output@)),
        vstd::utf8::valid_utf8(output@) ==> n == content_line_count(vstd::utf8::decode_utf8(output@)),
{
    let text = decode_utf8_lossy(output);
    count_content_lines(text.as_str())
}

/// Whether the player's queue has run dry, given what its remote control
/// printed for the queue, or `None` when the remote control could not be
/// run (then the queue counts as empty).
pub fn queue_runs_dry(output: Option<&[u8]>) -> (dry: bool)
    ensures
        dry == match output {
            Some(bytes) => content_line_count(utf8_lossy(bytes@)) == 0,
            None => true,
        },
{
    match output {
        Some(bytes) => queue_entry_count(bytes) == 0,
        None => true,
    }
}

} // verus!
