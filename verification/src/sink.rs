//! Choice of the audio output device.
//!
//! With a preference (e.g. `"cable"` for VB-CABLE's "CABLE Input"), the first
//! output device whose name contains it, ignoring case, wins; otherwise the
//! default output device (speakers) is used.
use vstd::prelude::*;

verus! {

/// The stream sample rate, matching the phone's capture rate.
pub const SAMPLE_RATE: u32 = 48_000;

/// The lowercase form of a string, as Rust's `str::to_lowercase` maps it.
pub uninterp spec fn lowercase(s: Seq<char>) -> Seq<char>;

/// Lowercases with `str::to_lowercase`. Claims only that the result is the
/// lowercase form of `s`, by name.
#[verifier::external_body]
fn to_lowercase(s: &str) -> (r: String)
    ensures
        r@ == lowercase(s@),
{
    s.to_lowercase()
}

/// `needle` occurs in `hay` as a contiguous run of bytes.
pub open spec fn contains_bytes(hay: Seq<u8>, needle: Seq<u8>) -> bool {
    exists|i: int|
        0 <= i && i + needle.len() <= hay.len() && #[trigger] hay.subrange(i, i + needle.len())
            == needle
}

/// A device name matches a preference when its lowercase form contains the
/// preference's lowercase form.
pub open spec fn name_matches(name: Seq<char>, prefer: Seq<char>) -> bool {
    contains_bytes(
        vstd::utf8::encode_utf8(lowercase(name)),
        vstd::utf8::encode_utf8(lowercase(prefer)),
    )
}

/// A device (whose name may be unknown) matches a preference.
pub open spec fn device_matches(name: Option<String>, prefer: Seq<char>) -> bool {
    match name {
        Some(n) => name_matches(n@, prefer),
        None => false,
    }
}

/// Whether `needle` occurs in `hay`.
fn contains(hay: &[u8], needle: &[u8]) -> (b: bool)
    ensures
        b == contains_bytes(hay@, needle@),
{
    if needle.len() == 0 {
        proof {
            assert(hay@.subrange(0int, 0int + needle@.len()) =~= needle@);
        }
        return true;
    }
    if needle.len() > hay.len() {
        return false;
    }
    let hay_len = hay.len();
    let last = hay.len() - needle.len();
    let mut i: usize = 0;
    while i <= last
        invariant
            hay_len == hay@.len(),
            needle@.len() >= 1,
            last == hay@.len() - needle@.len(),
            needle@.len() <= hay@.len(),
            0 <= i <= last + 1,
            forall|k: int|
                0 <= k < i ==> #[trigger] hay@.subrange(k, k + needle@.len()) != needle@,
        decreases last + 1 - i,
    {
        let mut t: usize = 0;
        let mut same = true;
        proof {
            assert(hay@.subrange(i as int, i as int) =~= needle@.subrange(0, 0));
        }
        while t < needle.len()
            invariant
                hay_len == hay@.len(),
                i <= last,
                last == hay@.len() - needle@.len(),
                0 <= t <= needle@.len(),
                same == (hay@.subrange(i as int, i + t) == needle@.subrange(0, t as int)),
            decreases needle@.len() - t,
        {
            if hay[i + t] != needle[t] {
                same = false;
            }
            proof {
                if same {
                    assert(hay@.subrange(i as int, i + t + 1) =~= hay@.subrange(i as int, i + t).push(
                        hay@[i + t],
                    ));
                    assert(needle@.subrange(0, t + 1) =~= needle@.subrange(0, t as int).push(
                        needle@[t as int],
                    ));
                } else {
                    if hay@.subrange(i as int, i + t + 1) == needle@.subrange(0, t + 1) {
                        if hay@[i + t] != needle@[t as int] {
                            assert(hay@.subrange(i as int, i + t + 1)[t as int] == hay@[i + t]);
                        } else {
                            assert(hay@.subrange(i as int, i + t) =~= hay@.subrange(
                                i as int,
                                i + t + 1,
                            ).subrange(0, t as int));
                            assert(needle@.subrange(0, t as int) =~= needle@.subrange(
                                0,
                                t + 1,
                            ).subrange(0, t as int));
                        }
                    }
                }
            }
            t = t + 1;
        }
        proof {
            assert(needle@.subrange(0, t as int) =~= needle@);
        }
        if same {
            return true;
        }
        i = i + 1;
    }
    false
}

/// The index of the first device whose name matches `prefer`, or `None`
/// when there is no preference or no device matches (then the default
/// output device is used).
pub fn pick_output_device(names: &[Option<String>], prefer: Option<&str>) -> (r: Option<usize>)
    ensures
        prefer is None ==> r is None,
        prefer matches Some(p) ==> match r {
            Some(i) => i < names@.len() && device_matches(names@[i as int], p@) && forall|j: int|
                0 <= j < i ==> !device_matches(#[trigger] names@[j], p@),
            None => forall|j: int|
                0 <= j < names@.len() ==> !device_matches(#[trigger] names@[j], p@),
        },
{
    let sub = match prefer {
        None => return None,
        Some(s) => s,
    };
    let want = to_lowercase(sub);
    let mut i: usize = 0;
    while i < names.len()
        invariant
            0 <= i <= names@.len(),
            prefer == Some(sub),
            want@ == lowercase(sub@),
            forall|j: int| 0 <= j < i ==> !device_matches(#[trigger] names@[j], sub@),
        decreases names@.len() - i,
    {
        match &names[i] {
            Some(n) => {
                let lower = to_lowercase(n.as_str());
                let found = contains(lower.as_str().as_bytes(), want.as_str().as_bytes());
                proof {
                    assert(names@[i as int] == Some(*n));
                    assert(found == name_matches(n@, sub@));
                }
                if found {
                    return Some(i);
                }
            },
            None => {},
        }
        i = i + 1;
    }
    None
}

} // verus!
