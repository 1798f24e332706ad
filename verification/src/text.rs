use vstd::prelude::*;

verus! {

/// The characters with the Unicode `White_Space` property.
pub open spec fn is_unicode_whitespace(c: char) -> bool {
    ||| '\u{9}' <= c <= '\u{d}'
    ||| c == ' '
    ||| c == '\u{85}'
    ||| c == '\u{a0}'
    ||| c == '\u{1680}'
    ||| '\u{2000}' <= c <= '\u{200a}'
    ||| c == '\u{2028}'
    ||| c == '\u{2029}'
    ||| c == '\u{202f}'
    ||| c == '\u{205f}'
    ||| c == '\u{3000}'
}

/// Calls `char::is_whitespace`, which is documented to hold exactly of the
/// characters with the Unicode `White_Space` property.
#[verifier::external_body]
fn char_is_whitespace(c: char) -> (r: bool)
    ensures
        r == is_unicode_whitespace(c),
{
    c.is_whitespace()
}

/// Calls `String::from_iter` on the characters: the string made of them, in order.
#[verifier::external_body]
pub(crate) fn string_from_chars(chars: &Vec<char>) -> (s: String)
    ensures
        s@ == chars@,
{
    String::from_iter(chars.iter())
}

/// The characters of `s`, in order.
pub fn chars_of(s: &str) -> (v: Vec<char>)
    ensures
        v@ == s@,
{
    let mut v: Vec<char> = Vec::new();
    for c in it: s.chars()
        invariant
            v@ == it.seq().take(it.index() as int),
            it.seq() == s@,
    {
        v.push(c);
    }
    v
}

/// The character sequences held by a list of character vectors.
pub open spec fn char_seqs(v: Seq<Vec<char>>) -> Seq<Seq<char>> {
    v.map_values(|w: Vec<char>| w@)
}

/// Length of the longest prefix of `s` made of characters that are not whitespace.
pub open spec fn word_len(s: Seq<char>) -> nat
    decreases s.len(),
{
    if s.len() == 0 || is_unicode_whitespace(s[0]) {
        0
    } else {
        1 + word_len(s.drop_first())
    }
}

/// The maximal runs of non-whitespace characters of `s`, in order, as
/// `str::split_whitespace` yields them.
pub open spec fn words(s: Seq<char>) -> Seq<Seq<char>>
    decreases s.len(),
{
    if s.len() == 0 {
        seq![]
    } else if is_unicode_whitespace(s[0]) {
        words(s.drop_first())
    } else {
        proof {
            lemma_word_len_bounds(s);
        }
        seq![s.take(word_len(s) as int)] + words(s.skip(word_len(s) as int))
    }
}

/// Length of the longest prefix of `s` that does not hold `sep`.
pub open spec fn piece_len(s: Seq<char>, sep: char) -> nat
    decreases s.len(),
{
    if s.len() == 0 || s[0] == sep {
        0
    } else {
        1 + piece_len(s.drop_first(), sep)
    }
}

/// The pieces of `s` between occurrences of `sep`, as `str::split` yields
/// them: always at least one, possibly empty.
pub open spec fn split_on(s: Seq<char>, sep: char) -> Seq<Seq<char>>
    decreases s.len(),
{
    if piece_len(s, sep) >= s.len() {
        seq![s]
    } else {
        seq![s.take(piece_len(s, sep) as int)] + split_on(s.skip(piece_len(s, sep) as int + 1), sep)
    }
}

/// A word is no longer than the text it starts, and one starts wherever a non-space character does.
pub proof fn lemma_word_len_bounds(s: Seq<char>)
    ensures
        word_len(s) <= s.len(),
        s.len() > 0 && !is_unicode_whitespace(s[0]) ==> word_len(s) >= 1,
    decreases s.len(),
{
    if s.len() > 0 {
        lemma_word_len_bounds(s.drop_first());
    }
}

/// Splitting always gives at least one piece.
pub proof fn lemma_split_on_nonempty(s: Seq<char>, sep: char)
    ensures
        split_on(s, sep).len() >= 1,
{
}

proof fn lemma_word_len(s: Seq<char>, n: int)
    requires
        0 <= n <= s.len(),
        forall|j: int| 0 <= j < n ==> !is_unicode_whitespace(#[trigger] s[j]),
        n == s.len() || is_unicode_whitespace(s[n]),
    ensures
        word_len(s) == n,
    decreases n,
{
    if n > 0 {
        lemma_word_len(s.drop_first(), n - 1);
    }
}

proof fn lemma_piece_len(s: Seq<char>, sep: char, n: int)
    requires
        0 <= n <= s.len(),
        forall|j: int| 0 <= j < n ==> #[trigger] s[j] != sep,
        n == s.len() || s[n] == sep,
    ensures
        piece_len(s, sep) == n,
    decreases n,
{
    if n > 0 {
        lemma_piece_len(s.drop_first(), sep, n - 1);
    }
}

/// A copy of `s[lo..hi]`.
pub fn copy_range(s: &Vec<char>, lo: usize, hi: usize) -> (r: Vec<char>)
    requires
        lo <= hi <= s.len(),
    ensures
        r@ == s@.subrange(lo as int, hi as int),
{
    let mut r: Vec<char> = Vec::new();
    let mut i = lo;
    while i < hi
        invariant
            lo <= i <= hi <= s.len(),
            r@ == s@.subrange(lo as int, i as int),
        decreases hi - i,
    {
        r.push(s[i]);
        i += 1;
    }
    r
}

/// Splits `s` into its whitespace-separated words.
pub fn split_words(s: &Vec<char>) -> (r: Vec<Vec<char>>)
    ensures
        char_seqs(r@) == words(s@),
{
    let mut r: Vec<Vec<char>> = Vec::new();
    assert(char_seqs(r@) =~= Seq::<Seq<char>>::empty());
    let mut i: usize = 0;
    let n = s.len();
    assert(s@.skip(0) == s@);
    assert(char_seqs(r@) + words(s@) =~= words(s@));
    while i < n
        invariant
            n == s.len(),
            i <= n,
            char_seqs(r@) + words(s@.skip(i as int)) == words(s@),
        decreases n - i,
    {
        let c = s[i];
        if char_is_whitespace(c) {
            assert(s@.skip(i as int).drop_first() == s@.skip(i + 1));
            i += 1;
        } else {
            let mut j = i + 1;
            while j < n && !char_is_whitespace(s[j])
                invariant
                    n == s.len(),
                    i < j <= n,
                    forall|k: int| i <= k < j ==> !is_unicode_whitespace(#[trigger] s@[k]),
                decreases n - j,
            {
                j += 1;
            }
            let ghost t = s@.skip(i as int);
            proof {
                lemma_word_len(t, j - i);
                assert(t.take(word_len(t) as int) == s@.subrange(i as int, j as int));
                assert(t.skip(word_len(t) as int) == s@.skip(j as int));
            }
            let w = copy_range(s, i, j);
            let ghost before = char_seqs(r@);
            r.push(w);
            assert(char_seqs(r@) =~= before.push(w@));
            i = j;
        }
    }
    assert(s@.skip(n as int) == Seq::<char>::empty());
    r
}

/// Splits `s` at every occurrence of `sep`.
pub fn split_at_char(s: &Vec<char>, sep: char) -> (r: Vec<Vec<char>>)
    ensures
        char_seqs(r@) == split_on(s@, sep),
{
    let mut r: Vec<Vec<char>> = Vec::new();
    assert(char_seqs(r@) =~= Seq::<Seq<char>>::empty());
    let mut start: usize = 0;
    let mut i: usize = 0;
    let n = s.len();
    assert(s@.skip(0) == s@);
    assert(char_seqs(r@) + split_on(s@, sep) =~= split_on(s@, sep));
    while i < n
        invariant
            n == s.len(),
            start <= i <= n,
            forall|k: int| start <= k < i ==> #[trigger] s@[k] != sep,
            char_seqs(r@) + split_on(s@.skip(start as int), sep) == split_on(s@, sep),
        decreases n - i,
    {
        if s[i] == sep {
            let ghost t = s@.skip(start as int);
            proof {
                lemma_piece_len(t, sep, i - start);
                assert(t.take(i - start) == s@.subrange(start as int, i as int));
                assert(t.skip(i - start + 1) == s@.skip(i + 1));
            }
            let piece = copy_range(s, start, i);
            let ghost before = char_seqs(r@);
            r.push(piece);
            assert(char_seqs(r@) =~= before.push(piece@));
            start = i + 1;
        }
        i += 1;
    }
    let ghost t = s@.skip(start as int);
    proof {
        lemma_piece_len(t, sep, n - start);
        assert(t == s@.subrange(start as int, n as int));
    }
    let last = copy_range(s, start, n);
    let ghost before = char_seqs(r@);
    r.push(last);
    assert(char_seqs(r@) =~= before.push(last@));
    r
}

} // verus!
