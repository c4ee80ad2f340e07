//! Operations on strings and paths that the library takes from std and from
//! camino, each stated over the characters it reads.
use vstd::prelude::*;

verus! {

/// Whether `pat` occurs in `s` as a run of consecutive characters.
pub open spec fn contains_seq(s: Seq<char>, pat: Seq<char>) -> bool {
    exists|i: int| 0 <= i && i + pat.len() <= s.len() && #[trigger] s.subrange(i, i + pat.len()) == pat
}

/// Relies on `str::contains` with a `&str` pattern, which is true exactly
/// when the pattern matches a sub-slice of the string.
#[verifier::external_body]
pub(crate) fn str_contains(s: &str, pat: &str) -> (r: bool)
    ensures
        r == contains_seq(s@, pat@),
{
    s.contains(pat)
}

/// Whether a list of strings holds `s`.
pub fn contains_str(v: &Vec<String>, s: &String) -> (r: bool)
    ensures
        r == v@.map_values(|x: String| x@).contains(s@),
{
    let ghost sv = v@.map_values(|x: String| x@);
    let mut i: usize = 0;
    while i < v.len()
        invariant
            i <= v.len(),
            sv == v@.map_values(|x: String| x@),
            forall|j: int| 0 <= j < i ==> sv[j] != s@,
        decreases v.len() - i,
    {
        if v[i] == *s {
            assert(sv[i as int] == s@);
            return true;
        }
        i += 1;
    }
    false
}


/// The path that camino's `Utf8Path::join` makes of `base` and `tail`.
pub uninterp spec fn joined_path(base: Seq<char>, tail: Seq<char>) -> Seq<char>;

/// Relies on camino's `Utf8Path::join`, which adjoins `tail` to `base` as
/// `PathBuf::push` does: an absolute `tail` replaces `base`, and a relative
/// one follows `base` after a separator. The stated separator `/` is that of
/// Unix targets, the only ones Bazel's execution roots are read on here.
#[verifier::external_body]
pub(crate) fn join_path(base: &str, tail: &str) -> (r: String)
    ensures
        r@ == joined_path(base@, tail@),
        tail@.len() > 0 && tail@[0] == '/' ==> r@ == tail@,
        base@.len() > 0 && base@.last() != '/' && tail@.len() > 0 && tail@[0] != '/' ==> r@
            == base@ + seq!['/'] + tail@,
{
    camino::Utf8Path::new(base).join(tail).into_string()
}


/// The characters of `s` before the first `c`, or all of `s` if it holds no `c`.
pub open spec fn prefix_before(s: Seq<char>, c: char) -> Seq<char>
    decreases s.len(),
{
    if s.len() == 0 {
        s
    } else if s[0] == c {
        Seq::empty()
    } else {
        seq![s[0]] + prefix_before(s.drop_first(), c)
    }
}

/// Whether `s` begins with `p`.
pub open spec fn starts_with(s: Seq<char>, p: Seq<char>) -> bool {
    p.len() <= s.len() && s.subrange(0, p.len() as int) == p
}

/// Relies on `str::split_once` with a `char` delimiter: the text before and
/// after the first occurrence of the delimiter, or `None` if there is none.
#[verifier::external_body]
pub(crate) fn split_once_char(s: &str, c: char) -> (r: Option<(&str, &str)>)
    ensures
        match r {
            Some((a, b)) => s@.contains(c) && a@ == prefix_before(s@, c) && b@ == s@.subrange(
                a@.len() as int + 1,
                s@.len() as int,
            ),
            None => !s@.contains(c),
        },
{
    s.split_once(c)
}

/// Relies on `str::strip_prefix` with a `&str` prefix: the rest of the text
/// if it begins with the prefix, else `None`.
#[verifier::external_body]
pub(crate) fn strip_prefix<'a>(s: &'a str, p: &str) -> (r: Option<&'a str>)
    ensures
        match r {
            Some(rest) => starts_with(s@, p@) && rest@ == s@.subrange(p@.len() as int, s@.len() as int),
            None => !starts_with(s@, p@),
        },
{
    s.strip_prefix(p)
}

/// The characters of `s` before the first `c`, or all of `s`.
pub fn text_before(s: &str, c: char) -> (r: String)
    ensures
        r@ == prefix_before(s@, c),
{
    match split_once_char(s, c) {
        Some((a, _)) => a.to_owned(),
        None => {
            proof {
                lemma_prefix_before_absent(s@, c);
            }
            s.to_owned()
        },
    }
}

proof fn lemma_prefix_before_absent(s: Seq<char>, c: char)
    requires
        !s.contains(c),
    ensures
        prefix_before(s, c) == s,
    decreases s.len(),
{
    if s.len() > 0 {
        assert(s[0] != c);
        assert(!s.drop_first().contains(c)) by {
            if s.drop_first().contains(c) {
                let i = choose|i: int| 0 <= i < s.drop_first().len() && s.drop_first()[i] == c;
                assert(s[i + 1] == c);
            }
        }
        lemma_prefix_before_absent(s.drop_first(), c);
        assert(seq![s[0]] + s.drop_first() =~= s);
    }
}

} // verus!
