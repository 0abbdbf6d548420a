use vstd::prelude::*;

verus! {

/// What `char::is_alphanumeric` says of a character (Unicode's Alphabetic or
/// Numeric property).
pub uninterp spec fn alphanumeric(c: char) -> bool;

/// What `str::to_lowercase` makes of a text (Unicode's lowercase mapping).
pub uninterp spec fn lowercase(s: Seq<char>) -> Seq<char>;

/// Relies on `char::is_alphanumeric`, which depends on the character alone.
#[verifier::external_body]
fn is_alphanumeric(c: char) -> (r: bool)
    ensures
        r == alphanumeric(c),
{
    c.is_alphanumeric()
}

/// Relies on `str::to_lowercase`, which depends on the text alone.
#[verifier::external_body]
fn to_lowercase(s: &str) -> (r: String)
    ensures
        r@ == lowercase(s@),
{
    s.to_lowercase()
}

/// Relies on `str::chars`: the characters of the text, in order.
#[verifier::external_body]
pub(crate) fn chars_of(s: &str) -> (r: Vec<char>)
    ensures
        r@ == s@,
{
    s.chars().collect()
}

/// Relies on `String: FromIterator<&char>`: the text made of these characters.
#[verifier::external_body]
pub(crate) fn string_of(cs: &Vec<char>) -> (r: String)
    ensures
        r@ == cs@,
{
    cs.iter().collect()
}

/// Scanning `s` from the start: the words completed so far and the word
/// being read. A word is a maximal run of alphanumeric characters.
pub open spec fn scan(s: Seq<char>) -> (Seq<Seq<char>>, Seq<char>)
    decreases s.len(),
{
    if s.len() == 0 {
        (Seq::empty(), Seq::empty())
    } else {
        let prev = scan(s.drop_last());
        let c = s.last();
        if alphanumeric(c) {
            (prev.0, prev.1.push(c))
        } else if prev.1.len() > 0 {
            (prev.0.push(prev.1), Seq::empty())
        } else {
            (prev.0, Seq::empty())
        }
    }
}

/// The words of `s`: its maximal runs of alphanumeric characters, in order.
pub open spec fn words(s: Seq<char>) -> Seq<Seq<char>> {
    let st = scan(s);
    if st.1.len() > 0 {
        st.0.push(st.1)
    } else {
        st.0
    }
}

/// The terms of a text: the words of its lowercase form.
pub fn tokenize(text: &str) -> (r: Vec<String>)
    ensures
        r@.len() == words(lowercase(text@)).len(),
        forall|i: int| 0 <= i < r@.len() ==> #[trigger] r@[i]@ == words(lowercase(text@))[i],
{
    let lower = to_lowercase(text);
    let cs = chars_of(lower.as_str());
    let ghost s = cs@;
    let mut done: Vec<String> = Vec::new();
    let mut cur: Vec<char> = Vec::new();
    let mut i: usize = 0;
    while i < cs.len()
        invariant
            s == cs@,
            i <= s.len(),
            done@.len() == scan(s.subrange(0, i as int)).0.len(),
            forall|k: int|
                0 <= k < done@.len() ==> #[trigger] done@[k]@ == scan(s.subrange(0, i as int)).0[k],
            cur@ == scan(s.subrange(0, i as int)).1,
        decreases s.len() - i,
    {
        let c = cs[i];
        assert(s.subrange(0, i + 1).drop_last() == s.subrange(0, i as int));
        assert(s.subrange(0, i + 1).last() == c);
        if is_alphanumeric(c) {
            cur.push(c);
        } else if cur.len() > 0 {
            let w = string_of(&cur);
            done.push(w);
            cur = Vec::new();
        }
        i = i + 1;
    }
    assert(s.subrange(0, s.len() as int) == s);
    if cur.len() > 0 {
        let w = string_of(&cur);
        done.push(w);
    }
    done
}

} // verus!
