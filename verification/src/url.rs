//! Which addresses the viewer fetches text from.

use vstd::prelude::*;
use vstd::string::StrSliceExecFns;

verus! {

/// Whether `url` is one that the viewer fetches: it starts with `http://`
/// or `https://`.
pub open spec fn is_fetchable(url: Seq<char>) -> bool {
    "http://"@.is_prefix_of(url) || "https://"@.is_prefix_of(url)
}

/// Whether `text` starts with `prefix`.
pub fn starts_with(text: &str, prefix: &str) -> (r: bool)
    ensures
        r == prefix@.is_prefix_of(text@),
{
    let n = text.unicode_len();
    let k = prefix.unicode_len();
    if k > n {
        return false;
    }
    let mut i: usize = 0;
    while i < k
        invariant
            n == text@.len(),
            k == prefix@.len(),
            k <= n,
            i <= k,
            forall|j: int| 0 <= j < i ==> prefix@[j] == text@[j],
        decreases k - i,
    {
        if text.get_char(i) != prefix.get_char(i) {
            return false;
        }
        i = i + 1;
    }
    assert(prefix@ =~= text@.subrange(0, k as int));
    true
}

/// Whether the viewer fetches `url`: only `http://` and `https://`
/// addresses are loaded; any other text is refused as an invalid URL.
pub fn is_fetchable_url(url: &str) -> (r: bool)
    ensures
        r == is_fetchable(url@),
{
    starts_with(url, "http://") || starts_with(url, "https://")
}

/// Every text that starts with `http://` or `https://` is fetched, whatever
/// follows.
pub proof fn lemma_http_addresses_are_fetched(rest: Seq<char>)
    ensures
        is_fetchable("http://"@ + rest),
        is_fetchable("https://"@ + rest),
{
    reveal_strlit("http://");
    reveal_strlit("https://");
    assert(("http://"@ + rest).subrange(0, 7) =~= "http://"@);
    assert(("https://"@ + rest).subrange(0, 8) =~= "https://"@);
}

/// Nothing else is fetched: a fetched text is `http://` or `https://`
/// followed by the rest of it.
pub proof fn lemma_only_http_addresses_are_fetched(url: Seq<char>)
    requires
        is_fetchable(url),
    ensures
        url =~= "http://"@ + url.skip(7) || url =~= "https://"@ + url.skip(8),
{
    reveal_strlit("http://");
    reveal_strlit("https://");
    if "http://"@.is_prefix_of(url) {
        assert(url =~= "http://"@ + url.skip(7));
    } else {
        assert(url =~= "https://"@ + url.skip(8));
    }
}

} // verus!
