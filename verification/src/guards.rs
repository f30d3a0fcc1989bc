//! The list of referers from which requests are accepted.

use vstd::prelude::*;
use vstd::string::StringSliceAdditionalSpecFns;
use vstd::utf8::encode_utf8;

verus! {

/// The byte of the character `/`.
pub const SLASH: u8 = 47;

/// The bytes of `s` without the slashes at its end.
pub open spec fn trim_slashes(s: Seq<u8>) -> Seq<u8>
    decreases s.len(),
{
    if s.len() > 0 && s.last() == SLASH {
        trim_slashes(s.drop_last())
    } else {
        s
    }
}

/// Accepts a request by its referer.
pub struct RefererGuard {
    allowed_referers: Vec<String>,
}

impl View for RefererGuard {
    type V = Seq<Seq<char>>;

    /// The accepted referers, in the order in which they were given.
    closed spec fn view(&self) -> Seq<Seq<char>> {
        self.allowed_referers.deep_view()
    }
}

impl RefererGuard {
    /// A guard that accepts the given referers and no others.
    pub fn new(allowed_referers: Vec<String>) -> (guard: Self)
        ensures
            guard@ == allowed_referers.deep_view(),
    {
        Self { allowed_referers }
    }

    /// The referer, once the slashes at its end are left out, is one of the
    /// accepted referers, byte for byte.
    pub open spec fn spec_allows(&self, referer: Seq<u8>) -> bool {
        exists|i: int|
            0 <= i < self@.len() && encode_utf8(#[trigger] self@[i]) == trim_slashes(referer)
    }

    /// Whether a request with this referer is accepted.
    pub fn allows(&self, referer: &str) -> (accepted: bool)
        ensures
            accepted == self.spec_allows(referer.spec_bytes()),
    {
        let bytes: &[u8] = referer.as_bytes();
        let mut end: usize = bytes.len();
        assert(bytes@.take(end as int) =~= bytes@);
        while end > 0 && bytes[end - 1] == SLASH
            invariant
                0 <= end <= bytes@.len(),
                trim_slashes(bytes@) == trim_slashes(bytes@.take(end as int)),
            decreases end,
        {
            proof {
                assert(bytes@.take(end as int).drop_last() =~= bytes@.take(end - 1));
            }
            end = end - 1;
        }
        let ghost trimmed = bytes@.take(end as int);
        assert(trim_slashes(bytes@) == trimmed);
        let n: usize = self.allowed_referers.len();
        let mut i: usize = 0;
        while i < n
            invariant
                n == self.allowed_referers@.len(),
                self@ == self.allowed_referers.deep_view(),
                0 <= i <= n,
                0 <= end <= bytes@.len(),
                trimmed == bytes@.take(end as int),
                bytes@ == referer.spec_bytes(),
                trim_slashes(bytes@) == trimmed,
                forall|j: int| 0 <= j < i ==> encode_utf8(#[trigger] self@[j]) != trimmed,
            decreases n - i,
        {
            let allowed: &[u8] = self.allowed_referers[i].as_str().as_bytes();
            assert(allowed@ == encode_utf8(self@[i as int]));
            if allowed.len() == end {
                let mut k: usize = 0;
                while k < end && allowed[k] == bytes[k]
                    invariant
                        0 <= k <= end <= bytes@.len(),
                        allowed@.len() == end,
                        forall|j: int| 0 <= j < k ==> allowed@[j] == bytes@[j],
                    decreases end - k,
                {
                    k = k + 1;
                }
                if k == end {
                    assert(allowed@ =~= trimmed);
                    assert(encode_utf8(self@[i as int]) == trim_slashes(referer.spec_bytes()));
                    return true;
                }
                assert(allowed@[k as int] != trimmed[k as int]);
            }
            i = i + 1;
        }
        false
    }
}

} // verus!
