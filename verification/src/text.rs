use vstd::prelude::*;

verus! {

/// Lowercase mapping for ASCII letters; every other character is unchanged.
pub open spec fn lower_char(c: char) -> char {
    if 'A' <= c && c <= 'Z' {
        ((c as u8) + 32) as char
    } else {
        c
    }
}

/// Executable ASCII lowercasing of one character.
pub fn lower_char_exec(c: char) -> (r: char)
    ensures
        r == lower_char(c),
{
    if 'A' <= c && c <= 'Z' {
        ((c as u8) + 32) as char
    } else {
        c
    }
}

/// The Unicode `White_Space` characters, the set that `char::is_whitespace`
/// recognises.
pub open spec fn is_space(c: char) -> bool {
    ||| c == ' '
    ||| c == '\t'
    ||| c == '\n'
    ||| c == '\u{b}'
    ||| c == '\u{c}'
    ||| c == '\r'
    ||| c == '\u{85}'
    ||| c == '\u{a0}'
    ||| c == '\u{1680}'
    ||| ('\u{2000}' <= c && c <= '\u{200a}')
    ||| c == '\u{2028}'
    ||| c == '\u{2029}'
    ||| c == '\u{202f}'
    ||| c == '\u{205f}'
    ||| c == '\u{3000}'
}

pub fn is_space_exec(c: char) -> (r: bool)
    ensures
        r == is_space(c),
{
    c == ' ' || c == '\t' || c == '\n' || c == '\u{b}' || c == '\u{c}' || c == '\r'
        || c == '\u{85}' || c == '\u{a0}' || c == '\u{1680}'
        || ('\u{2000}' <= c && c <= '\u{200a}') || c == '\u{2028}' || c == '\u{2029}'
        || c == '\u{202f}' || c == '\u{205f}' || c == '\u{3000}'
}

/// Lowercasing of a character sequence, character by character.
pub open spec fn lower_seq(s: Seq<char>) -> Seq<char> {
    s.map_values(|c: char| lower_char(c))
}

/// Splitting on a delimiter, as `str::split` does: the result always holds at
/// least one piece, and a trailing delimiter yields a trailing empty piece.
pub open spec fn split_char(s: Seq<char>, d: char) -> Seq<Seq<char>>
    decreases s.len(),
{
    if s.len() == 0 {
        seq![Seq::<char>::empty()]
    } else {
        let rest = split_char(s.drop_first(), d);
        if s[0] == d {
            seq![Seq::<char>::empty()] + rest
        } else {
            rest.update(0, seq![s[0]] + rest[0])
        }
    }
}

pub proof fn lemma_split_char_len(s: Seq<char>, d: char)
    ensures
        split_char(s, d).len() >= 1,
    decreases s.len(),
{
    if s.len() != 0 {
        lemma_split_char_len(s.drop_first(), d);
    }
}

/// The first index at or after `i` that holds a character other than
/// whitespace, or the length when none does.
pub open spec fn first_non_space(s: Seq<char>, i: int) -> int
    decreases s.len() - i,
{
    if !(0 <= i < s.len()) {
        s.len() as int
    } else if is_space(s[i]) {
        first_non_space(s, i + 1)
    } else {
        i
    }
}

/// The exclusive end of `s` once trailing whitespace before `j` is dropped.
pub open spec fn end_non_space(s: Seq<char>, j: int) -> int
    decreases j,
{
    if j <= 0 || j > s.len() {
        0
    } else if is_space(s[j - 1]) {
        end_non_space(s, j - 1)
    } else {
        j
    }
}

/// What `str::trim` leaves: the input without leading and trailing whitespace.
pub open spec fn spec_trim(s: Seq<char>) -> Seq<char> {
    let a = first_non_space(s, 0);
    let b = end_non_space(s, s.len() as int);
    if a >= b {
        Seq::empty()
    } else {
        s.subrange(a, b)
    }
}

pub proof fn lemma_first_non_space_range(s: Seq<char>, i: int)
    requires
        0 <= i <= s.len(),
    ensures
        i <= first_non_space(s, i) <= s.len(),
    decreases s.len() - i,
{
    if 0 <= i < s.len() && is_space(s[i]) {
        lemma_first_non_space_range(s, i + 1);
    }
}

pub proof fn lemma_end_non_space_range(s: Seq<char>, j: int)
    requires
        0 <= j <= s.len(),
    ensures
        0 <= end_non_space(s, j) <= j,
    decreases j,
{
    if 0 < j <= s.len() && is_space(s[j - 1]) {
        lemma_end_non_space_range(s, j - 1);
    }
}

/// When everything before `j` is whitespace, trimming from the right reaches
/// the start.
pub proof fn lemma_end_all_space(s: Seq<char>, j: int)
    requires
        0 <= j <= s.len(),
        forall|k: int| 0 <= k < j ==> is_space(s[k]),
    ensures
        end_non_space(s, j) == 0,
    decreases j,
{
    if 0 < j <= s.len() {
        lemma_end_all_space(s, j - 1);
    }
}

/// Executable trim over a character vector.
pub fn trim_chars(v: &Vec<char>) -> (r: Vec<char>)
    ensures
        r@ == spec_trim(v@),
{
    let n = v.len();
    let mut a: usize = 0;
    while a < n && is_space_exec(v[a])
        invariant
            0 <= a <= n,
            n == v@.len(),
            first_non_space(v@, 0) == first_non_space(v@, a as int),
            forall|k: int| 0 <= k < a ==> is_space(v@[k]),
        decreases n - a,
    {
        a = a + 1;
    }
    assert(first_non_space(v@, 0) == a as int);
    let mut b: usize = n;
    while b > a && is_space_exec(v[b - 1])
        invariant
            a <= b <= n,
            n == v@.len(),
            a as int == first_non_space(v@, 0),
            forall|k: int| 0 <= k < a ==> is_space(v@[k]),
            end_non_space(v@, n as int) == end_non_space(v@, b as int),
        decreases b,
    {
        b = b - 1;
    }
    proof {
        if b == a {
            // b only reaches a when the whole input is whitespace
            lemma_end_all_space(v@, b as int);
        } else {
            assert(!is_space(v@[b - 1]));
            assert(end_non_space(v@, b as int) == b as int);
        }
    }
    let mut r: Vec<char> = Vec::new();
    let mut k: usize = a;
    while k < b
        invariant
            a <= k <= b <= n,
            n == v@.len(),
            r@ =~= v@.subrange(a as int, k as int),
        decreases b - k,
    {
        r.push(v[k]);
        assert(r@ =~= v@.subrange(a as int, k + 1));
        k = k + 1;
    }
    assert(r@ =~= spec_trim(v@));
    r
}

/// The suffix after the last occurrence of `d`, as `s.split(d).last()` yields
/// it: the whole sequence when `d` does not occur.
pub open spec fn suffix_after_last(s: Seq<char>, d: char) -> Seq<char>
    decreases s.len(),
{
    if s.len() == 0 {
        s
    } else if s[s.len() - 1] == d {
        Seq::empty()
    } else {
        suffix_after_last(s.drop_last(), d).push(s[s.len() - 1])
    }
}

pub proof fn lemma_suffix_after_last_subrange(s: Seq<char>, d: char, j: int)
    requires
        0 <= j <= s.len(),
        forall|k: int| j <= k < s.len() ==> s[k] != d,
        j > 0 ==> s[j - 1] == d,
    ensures
        suffix_after_last(s, d) == s.subrange(j, s.len() as int),
    decreases s.len(),
{
    if s.len() == 0 {
        assert(suffix_after_last(s, d) =~= s.subrange(0, 0));
    } else if j == s.len() {
        assert(s[s.len() - 1] == d);
        assert(suffix_after_last(s, d) =~= s.subrange(j, s.len() as int));
    } else {
        assert(s[s.len() - 1] != d);
        lemma_suffix_after_last_subrange(s.drop_last(), d, j);
        assert(s.drop_last().subrange(j, s.len() - 1).push(s[s.len() - 1]) =~= s.subrange(
            j,
            s.len() as int,
        ));
    }
}

/// Executable form of `suffix_after_last`.
pub fn suffix_after_last_exec(v: &Vec<char>, d: char) -> (r: Vec<char>)
    ensures
        r@ == suffix_after_last(v@, d),
{
    let n = v.len();
    let mut j: usize = n;
    while j > 0 && v[j - 1] != d
        invariant
            0 <= j <= n,
            n == v@.len(),
            forall|k: int| j <= k < n ==> v@[k] != d,
        decreases j,
    {
        j = j - 1;
    }
    proof {
        lemma_suffix_after_last_subrange(v@, d, j as int);
    }
    let mut r: Vec<char> = Vec::new();
    let mut k: usize = j;
    while k < n
        invariant
            j <= k <= n,
            n == v@.len(),
            r@ =~= v@.subrange(j as int, k as int),
        decreases n - k,
    {
        r.push(v[k]);
        assert(r@ =~= v@.subrange(j as int, k + 1));
        k = k + 1;
    }
    assert(r@ =~= v@.subrange(j as int, n as int));
    r
}

/// Executable lowercasing of a character vector.
pub fn lower_chars(v: &Vec<char>) -> (r: Vec<char>)
    ensures
        r@ == lower_seq(v@),
{
    let n = v.len();
    let mut r: Vec<char> = Vec::new();
    let mut i: usize = 0;
    while i < n
        invariant
            0 <= i <= n,
            n == v@.len(),
            r@.len() == i,
            forall|k: int| 0 <= k < i ==> r@[k] == lower_char(v@[k]),
        decreases n - i,
    {
        r.push(lower_char_exec(v[i]));
        i = i + 1;
    }
    assert(r@ =~= lower_seq(v@));
    r
}

/// Executable split on a delimiter character.
pub fn split_chars(v: &Vec<char>, d: char) -> (r: Vec<Vec<char>>)
    ensures
        r@.len() == split_char(v@, d).len(),
        forall|j: int| 0 <= j < r@.len() ==> r@[j]@ == split_char(v@, d)[j],
{
    let n = v.len();
    let mut done: Vec<Vec<char>> = Vec::new();
    let mut cur: Vec<char> = Vec::new();
    let mut i: usize = 0;
    proof {
        lemma_split_char_len(v@, d);
        assert(v@.skip(0) =~= v@);
    }
    while i < n
        invariant
            0 <= i <= n,
            n == v@.len(),
            split_char(v@.skip(i as int), d).len() >= 1,
            split_char(v@, d).len() == done@.len() + split_char(v@.skip(i as int), d).len(),
            forall|j: int|
                0 <= j < done@.len() ==> #[trigger] split_char(v@, d)[j] == done@[j]@,
            split_char(v@, d)[done@.len() as int] == cur@ + split_char(v@.skip(i as int), d)[0],
            forall|j: int|
                1 <= j < split_char(v@.skip(i as int), d).len() ==> #[trigger] split_char(
                    v@.skip(i as int),
                    d,
                )[j] == split_char(v@, d)[done@.len() + j],
        decreases n - i,
    {
        let ghost pre = v@.skip(i as int);
        let ghost post = v@.skip(i as int + 1);
        let ghost olddone = done@;
        let ghost oldcur = cur@;
        proof {
            assert(pre.len() > 0);
            assert(pre[0] == v@[i as int]);
            assert(pre.drop_first() =~= post);
            assert(pre.drop_first() == post);
            lemma_split_char_len(post, d);
        }
        let c = v[i];
        if c == d {
            proof {
                assert(split_char(pre, d) == seq![Seq::<char>::empty()] + split_char(post, d));
                assert(split_char(pre, d)[0] == Seq::<char>::empty());
            }
            done.push(cur);
            cur = Vec::new();
            proof {
                // the piece that just closed
                assert(oldcur + Seq::<char>::empty() =~= oldcur);
                assert(split_char(v@, d)[olddone.len() as int] == oldcur);
                // the piece now being built
                assert(split_char(pre, d)[1] == split_char(post, d)[0]);
                assert(split_char(v@, d)[olddone.len() as int + 1] == split_char(post, d)[0]);
                assert(cur@ + split_char(post, d)[0] =~= split_char(post, d)[0]);
                // the remaining pieces
                assert forall|j: int| 1 <= j < split_char(post, d).len() implies #[trigger]
                    split_char(post, d)[j] == split_char(v@, d)[olddone.len() as int + 1 + j] by {
                    assert(split_char(pre, d)[j + 1] == split_char(post, d)[j]);
                }
            }
        } else {
            proof {
                assert(split_char(pre, d) == split_char(post, d).update(
                    0,
                    seq![pre[0]] + split_char(post, d)[0],
                ));
            }
            cur.push(c);
            proof {
                assert(split_char(pre, d)[0] == seq![c] + split_char(post, d)[0]);
                assert(oldcur + (seq![c] + split_char(post, d)[0]) =~= oldcur.push(c)
                    + split_char(post, d)[0]);
                assert(split_char(v@, d)[olddone.len() as int] == cur@ + split_char(post, d)[0]);
                assert forall|j: int| 1 <= j < split_char(post, d).len() implies #[trigger]
                    split_char(post, d)[j] == split_char(v@, d)[olddone.len() as int + j] by {
                    assert(split_char(pre, d)[j] == split_char(post, d)[j]);
                }
            }
        }
        i = i + 1;
    }
    proof {
        assert(v@.skip(n as int) =~= Seq::<char>::empty());
        assert(split_char(v@.skip(n as int), d) =~= seq![Seq::<char>::empty()]);
        assert(split_char(v@, d)[done@.len() as int] =~= cur@);
    }
    done.push(cur);
    done
}

/// Reads a `&str` into its characters.
pub fn str_to_chars(s: &str) -> (v: Vec<char>)
    ensures
        v@ == s@,
{
    let n = s.unicode_len();
    let mut v: Vec<char> = Vec::new();
    let mut i: usize = 0;
    while i < n
        invariant
            0 <= i <= n,
            n == s@.len(),
            v@.len() == i,
            forall|k: int| 0 <= k < i ==> v@[k] == s@[k],
        decreases n - i,
    {
        v.push(s.get_char(i));
        i = i + 1;
    }
    assert(v@ =~= s@);
    v
}

/// Relies on `String`'s `FromIterator<char>` implementation: collecting
/// characters yields a string holding exactly those characters in order.
#[verifier::external_body]
pub(crate) fn chars_to_string(v: &Vec<char>) -> (s: String)
    ensures
        s@ == v@,
{
    v.iter().collect()
}

} // verus!
