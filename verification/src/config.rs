//! The configuration data model: zones, their matchers and their
//! records, and the builder that turns a plain configuration document
//! tree into a `Config`.

use vstd::prelude::*;
use crate::regex::{regex_accepts, Pattern};
use crate::server::{split_char, spec_split_char};
use crate::ttl::{parse_ttl, spec_ttl_ok, spec_ttl_secs};
use vstd::utf8::{decode_utf8, encode_utf8, valid_utf8};

verus! {

/// One label pattern of a zone matcher.
#[derive(Debug, Clone, PartialEq)]
pub enum Label {
    /// A literal label, stored lowercased.
    Basic(String),
    /// A per-label regular expression; the flag marks the eager kind,
    /// which is not implemented by the matcher.
    Regex(bool, Pattern),
    /// Matches exactly one label.
    Wildcard,
    /// Matches one or more labels (consumes all remaining).
    SubWildcard,
    /// Matches zero or more labels (consumes all remaining).
    AllWildcard,
}

/// An ordered sequence of label patterns, matched right to left.
pub type ZoneMatcher = Vec<Label>;

/// A resolved socket endpoint as plain values: an IPv4 or IPv6 address
/// and a port.
#[derive(Debug, Clone, Copy, PartialEq, Eq)]
pub enum IpRepr {
    V4([u8; 4]),
    V6([u8; 16]),
}

#[derive(Debug, Clone, Copy, PartialEq, Eq)]
pub struct Endpoint {
    pub ip: IpRepr,
    pub port: u16,
}

#[derive(Debug, Clone, PartialEq)]
pub struct ARecord {
    /// TTL in seconds.
    pub ttl: u64,
    pub ip4addr: [u8; 4],
}

#[derive(Debug, Clone, PartialEq)]
pub struct AaaaRecord {
    pub ttl: u64,
    pub ip6addr: [u8; 16],
}

#[derive(Debug, Clone, PartialEq)]
pub struct NsRecord {
    pub ttl: u64,
    pub name: String,
}

#[derive(Debug, Clone, PartialEq)]
pub struct CnameRecord {
    pub ttl: u64,
    pub name: String,
}

#[derive(Debug, Clone, PartialEq)]
pub struct AnameRecord {
    pub ttl: u64,
    pub name: String,
}

#[derive(Debug, Clone, PartialEq)]
pub struct MxRecord {
    pub ttl: u64,
    pub priority: u16,
    pub host: String,
}

#[derive(Debug, Clone, PartialEq)]
pub struct TxtRecord {
    pub ttl: u64,
    pub data: String,
}

/// Where a recursive-resolver delegation points: a resolved endpoint,
/// or a host name and port still to be resolved.
#[derive(Debug, Clone, PartialEq)]
pub enum RnsHost {
    SocketAddr(Endpoint),
    HostPort(String, u16),
}

#[derive(Debug, Clone, PartialEq)]
pub struct RnsRecord {
    pub ttl: u64,
    pub host: RnsHost,
    /// Whether the host name is resolved through the configured
    /// resolver directly instead of the internal engine.
    pub external: bool,
}

#[derive(Debug, Default, Clone, PartialEq)]
pub struct Records {
    pub a: Vec<ARecord>,
    pub aaaa: Vec<AaaaRecord>,
    pub ns: Vec<NsRecord>,
    pub cname: Vec<CnameRecord>,
    pub aname: Vec<AnameRecord>,
    pub mx: Vec<MxRecord>,
    pub txt: Vec<TxtRecord>,
    pub rns: Vec<RnsRecord>,
}

#[derive(Debug, Clone, PartialEq)]
pub struct Zone {
    pub matchers: Vec<ZoneMatcher>,
    pub records: Records,
}

#[derive(Debug, Clone, PartialEq)]
pub struct Config {
    /// Default TTL in seconds.
    pub ttl: u64,
    pub zones: Vec<Zone>,
}

/// Eager regular-expression labels are not implemented by the matcher;
/// a well-formed matcher carries none.
pub open spec fn spec_no_eager_matcher(m: Seq<Label>) -> bool {
    forall|j: int| 0 <= j < m.len() ==> !(#[trigger] m[j] matches Label::Regex(true, _))
}

pub open spec fn spec_no_eager_matchers(ms: Seq<ZoneMatcher>) -> bool {
    forall|i: int| 0 <= i < ms.len() ==> spec_no_eager_matcher(#[trigger] ms[i]@)
}

/// A configuration the resolution engine accepts: no zone carries an
/// eager regular-expression label.
pub open spec fn spec_wf_config(config: Config) -> bool {
    forall|z: int|
        0 <= z < config.zones@.len() ==> spec_no_eager_matchers(
            #[trigger] config.zones@[z].matchers@,
        )
}

/// The body, TTL and flags of a configuration key or value: the first
/// space-separated part is the body; a trailing duration becomes the
/// TTL, the default applying otherwise; the parts in between are
/// flags.
pub open spec fn spec_value_ttl(v: Seq<char>, default_ttl: u64) -> (
    Seq<char>,
    u64,
    Seq<Seq<char>>,
) {
    let parts = spec_split_char(v, ' ');
    let lst = parts.last();
    let ok = spec_ttl_ok(lst) && spec_ttl_secs(lst) <= u64::MAX;
    let ttl = if ok {
        spec_ttl_secs(lst) as u64
    } else {
        default_ttl
    };
    let k: int = if ok {
        1
    } else {
        0
    };
    let flags = if parts.len() - k >= 1 {
        parts.subrange(1, parts.len() - k)
    } else {
        Seq::empty()
    };
    (parts[0], ttl, flags)
}

/// Splits a configuration key or value into its body, its TTL (the
/// trailing duration, or the default) and its flags.
pub fn parse_value_ttl(value: &str, default_ttl: u64) -> (r: (String, u64, Vec<String>))
    ensures
        ({
            let (b, t, f) = spec_value_ttl(value@, default_ttl);
            r.0@ == b && r.1 == t && r.2.deep_view() == f
        }),
{
    let parts = split_char(value, ' ');
    let ghost pv = parts.deep_view();
    proof {
        assert(pv.len() >= 1);
        assert(pv.len() == parts@.len());
        assert(pv[0] == parts@[0]@);
        assert(pv[pv.len() - 1] == parts@[parts@.len() - 1]@);
    }
    let body = parts[0].clone();
    let dur = parse_ttl(parts[parts.len() - 1].as_str());
    let ok = dur.is_ok();
    let ttl: u64 = match dur {
        Ok(v) => v,
        Err(_) => default_ttl,
    };
    let end: usize = if ok {
        parts.len() - 1
    } else {
        parts.len()
    };
    let mut flags: Vec<String> = Vec::new();
    let mut j: usize = 1;
    if end >= 1 {
        proof {
            assert(flags.deep_view() =~= pv.subrange(1, 1));
        }
        while j < end
            invariant
                pv == parts.deep_view(),
                pv.len() == parts@.len(),
                1 <= j <= end <= parts@.len(),
                flags.deep_view() == pv.subrange(1, j as int),
            decreases end - j,
        {
            proof {
                assert(pv[j as int] == parts@[j as int]@);
                assert(flags.deep_view().len() == j - 1);
            }
            flags.push(parts[j].clone());
            j += 1;
            proof {
                assert(flags.deep_view() =~~= pv.subrange(1, j as int));
            }
        }
    }
    proof {
        if end >= 1 {
            assert(flags.deep_view() == pv.subrange(1, end as int));
        } else {
            assert(flags.deep_view() =~= Seq::<Seq<char>>::empty());
        }
    }
    (body, ttl, flags)
}

// ---------------------------------------------------------------------
// The zone-matcher expression grammar:
// matchers := matcher (,matcher)*
// matcher  := label (. label)*
// label    := *** | ** | * | /regex/ | [A-Za-z0-9_-]{1,63}
// ---------------------------------------------------------------------

/// A matcher expression that the grammar rejects.
#[derive(Debug, Clone, Copy, PartialEq, Eq, Structural)]
pub struct MatcherSyntaxError;

/// The mathematical shape of a parsed label: literal labels by their
/// (lowered) bytes, regular expressions by their pattern bytes.
#[verifier::ext_equal]
pub ghost enum LabelModel {
    Basic(Seq<u8>),
    Regex(bool, Seq<u8>),
    Wildcard,
    SubWildcard,
    AllWildcard,
}

/// Whether a label value carries exactly what the model describes.
pub open spec fn spec_label_models(l: Label, m: LabelModel) -> bool {
    match (l, m) {
        (Label::Basic(s), LabelModel::Basic(b)) => encode_utf8(s@) == b,
        (Label::Regex(e1, p), LabelModel::Regex(e2, b)) => e1 == e2 && encode_utf8(p.pattern())
            == b,
        (Label::Wildcard, LabelModel::Wildcard) => true,
        (Label::SubWildcard, LabelModel::SubWildcard) => true,
        (Label::AllWildcard, LabelModel::AllWildcard) => true,
        _ => false,
    }
}

pub open spec fn spec_labels_model(ls: Seq<Label>, ms: Seq<LabelModel>) -> bool {
    ls.len() == ms.len() && forall|j: int|
        0 <= j < ls.len() ==> spec_label_models(#[trigger] ls[j], ms[j])
}

pub open spec fn spec_matchers_model(zs: Seq<ZoneMatcher>, ms: Seq<Seq<LabelModel>>) -> bool {
    zs.len() == ms.len() && forall|j: int|
        0 <= j < zs.len() ==> spec_labels_model((#[trigger] zs[j])@, ms[j])
}

/// Bytes a literal label may hold.
pub open spec fn spec_is_name_byte(b: u8) -> bool {
    (97 <= b <= 122) || (65 <= b <= 90) || (48 <= b <= 57) || b == 45 || b == 95
}

/// Where the literal-label prefix starting at `k` ends: at the first
/// other byte, or at the 63-byte cap.
pub open spec fn spec_basic_len(i: Seq<u8>, k: int) -> int
    decreases i.len() - k,
{
    if k < 0 || k >= i.len() || k >= 63 || !spec_is_name_byte(i[k]) {
        k
    } else {
        spec_basic_len(i, k + 1)
    }
}

pub open spec fn spec_ascii_lower(b: u8) -> u8 {
    if 65 <= b <= 90 {
        (b + 32) as u8
    } else {
        b
    }
}

/// The index of the closing slash of a regex label body that starts at
/// `k`, skipping escaped bytes; negative when there is none.
pub open spec fn spec_regex_end(i: Seq<u8>, k: int) -> int
    decreases i.len() + 1 - k,
{
    if k < 0 || k >= i.len() {
        -1
    } else if i[k] == 47 {
        k
    } else if i[k] == 92 {
        spec_regex_end(i, k + 2)
    } else {
        spec_regex_end(i, k + 1)
    }
}

/// The regex body with every escaped slash unescaped.
pub open spec fn spec_unescape(b: Seq<u8>) -> Seq<u8>
    decreases b.len(),
{
    if b.len() == 0 {
        Seq::empty()
    } else if b.len() >= 2 && b[0] == 92 && b[1] == 47 {
        seq![47u8] + spec_unescape(b.skip(2))
    } else {
        seq![b[0]] + spec_unescape(b.skip(1))
    }
}

/// Whether the pattern still contains an escaped dot (which marks the
/// eager kind).
pub open spec fn spec_has_escaped_dot(b: Seq<u8>) -> bool
    decreases b.len(),
{
    if b.len() < 2 {
        false
    } else {
        (b[0] == 92 && b[1] == 46) || spec_has_escaped_dot(b.skip(1))
    }
}

/// One label of a matcher expression, tried in the order all-wildcard,
/// sub-wildcard, wildcard, regex, literal; the result is the model and
/// the bytes consumed.
pub open spec fn spec_label_parse(i: Seq<u8>) -> Option<(LabelModel, int)> {
    if i.len() >= 3 && i[0] == 42 && i[1] == 42 && i[2] == 42 {
        Some((LabelModel::AllWildcard, 3))
    } else if i.len() >= 2 && i[0] == 42 && i[1] == 42 {
        Some((LabelModel::SubWildcard, 2))
    } else if i.len() >= 1 && i[0] == 42 {
        Some((LabelModel::Wildcard, 1))
    } else if i.len() >= 1 && i[0] == 47 {
        let e = spec_regex_end(i, 1);
        if e >= 1 {
            let pat = spec_unescape(i.subrange(1, e));
            if valid_utf8(pat) && regex_accepts(decode_utf8(pat)) {
                Some((LabelModel::Regex(spec_has_escaped_dot(pat), pat), e + 1))
            } else {
                None
            }
        } else {
            None
        }
    } else {
        let n = spec_basic_len(i, 0);
        if n >= 1 {
            Some(
                (
                    LabelModel::Basic(i.take(n).map_values(|b: u8| spec_ascii_lower(b))),
                    n,
                ),
            )
        } else {
            None
        }
    }
}

/// A dot-separated list of labels, with a failing element after a dot
/// backtracking the dot, as a list combinator does.
pub open spec fn spec_matcher_parse(i: Seq<u8>) -> (Seq<LabelModel>, int)
    decreases i.len(),
{
    match spec_label_parse(i) {
        None => (Seq::empty(), 0),
        Some((m, n)) => {
            if 0 <= n < i.len() && i[n] == 46 {
                let (rest, n2) = spec_matcher_parse(i.skip(n + 1));
                if rest.len() == 0 {
                    (seq![m], n)
                } else {
                    (seq![m] + rest, n + 1 + n2)
                }
            } else {
                (seq![m], n)
            }
        },
    }
}

/// A comma-separated list of matchers.
pub open spec fn spec_matchers_parse(i: Seq<u8>) -> (Seq<Seq<LabelModel>>, int)
    decreases i.len(),
{
    let (m, n) = spec_matcher_parse(i);
    if m.len() == 0 {
        (Seq::empty(), 0)
    } else if 0 <= n < i.len() && i[n] == 44 {
        let (rest, n2) = spec_matchers_parse(i.skip(n + 1));
        if rest.len() == 0 {
            (seq![m], n)
        } else {
            (seq![m] + rest, n + 1 + n2)
        }
    } else {
        (seq![m], n)
    }
}

fn name_byte(b: u8) -> (r: bool)
    ensures
        r == spec_is_name_byte(b),
{
    (97 <= b && b <= 122) || (65 <= b && b <= 90) || (48 <= b && b <= 57) || b == 45 || b == 95
}

/// Parses a literal label: one to sixty-three name bytes, lowered.
pub fn parse_basic(i: &[u8]) -> (r: Result<(&[u8], Label), MatcherSyntaxError>)
    ensures
        match r {
            Ok(v) => ({
                let n = spec_basic_len(i@, 0);
                &&& 1 <= n <= i@.len()
                &&& v.0@ == i@.skip(n)
                &&& (v.1 matches Label::Basic(s) && encode_utf8(s@) == i@.take(n).map_values(
                    |b: u8| spec_ascii_lower(b),
                ))
            }),
            Err(_) => spec_basic_len(i@, 0) == 0,
        },
{
    let mut n: usize = 0;
    while n < i.len() && n < 63 && name_byte(i[n])
        invariant
            n <= i@.len(),
            n <= 63,
            forall|j: int| 0 <= j < n ==> spec_is_name_byte(#[trigger] i@[j]),
            spec_basic_len(i@, 0) == spec_basic_len(i@, n as int),
        decreases i@.len() - n,
    {
        n += 1;
    }
    proof {
        assert(spec_basic_len(i@, n as int) == n);
    }
    if n == 0 {
        return Err(MatcherSyntaxError);
    }
    let mut low: Vec<u8> = Vec::new();
    let mut k: usize = 0;
    proof {
        assert(low@ =~= i@.take(0).map_values(|b: u8| spec_ascii_lower(b)));
    }
    while k < n
        invariant
            k <= n <= i@.len(),
            forall|j: int| 0 <= j < n ==> spec_is_name_byte(#[trigger] i@[j]),
            low@ == i@.take(k as int).map_values(|b: u8| spec_ascii_lower(b)),
        decreases n - k,
    {
        let b = i[k];
        let lb: u8 = if 65 <= b && b <= 90 {
            b + 32
        } else {
            b
        };
        low.push(lb);
        k += 1;
        proof {
            assert(low@ =~= i@.take(k as int).map_values(|b: u8| spec_ascii_lower(b)));
        }
    }
    proof {
        assert forall|j: int| 0 <= j < low@.len() implies vstd::utf8::is_leading_byte_width_1(
            #[trigger] low@[j],
        ) by {
            assert(low@[j] == spec_ascii_lower(i@[j]));
            assert(spec_is_name_byte(i@[j]));
        }
        assert(vstd::utf8::partial_valid_utf8(low@, 0)) by {
            assert(low@.subrange(0, 0) =~= Seq::<u8>::empty());
        }
        vstd::utf8::partial_valid_utf8_extend_ascii_block(low@, 0, low@.len() as int);
        assert(low@.subrange(0, low@.len() as int) =~= low@);
        assert(valid_utf8(low@));
    }
    let ghost lowv = low@;
    match crate::protocol::string_from_utf8(low) {
        Some(s) => {
            let rest = vstd::slice::slice_subrange(i, n, i.len());
            Ok((rest, Label::Basic(s)))
        },
        None => {
            proof {
                assert(false);
            }
            Err(MatcherSyntaxError)
        },
    }
}

/// Parses `*`: exactly one label.
pub fn parse_wildcard(i: &[u8]) -> (r: Result<(&[u8], Label), MatcherSyntaxError>)
    ensures
        match r {
            Ok(v) => i@.len() >= 1 && i@[0] == 42 && v.0@ == i@.skip(1) && v.1 matches
                Label::Wildcard,
            Err(_) => !(i@.len() >= 1 && i@[0] == 42),
        },
{
    if i.len() >= 1 && i[0] == 42 {
        Ok((vstd::slice::slice_subrange(i, 1, i.len()), Label::Wildcard))
    } else {
        Err(MatcherSyntaxError)
    }
}

/// Parses `**`: one or more labels.
pub fn parse_subwildcard(i: &[u8]) -> (r: Result<(&[u8], Label), MatcherSyntaxError>)
    ensures
        match r {
            Ok(v) => i@.len() >= 2 && i@[0] == 42 && i@[1] == 42 && v.0@ == i@.skip(2)
                && v.1 matches Label::SubWildcard,
            Err(_) => !(i@.len() >= 2 && i@[0] == 42 && i@[1] == 42),
        },
{
    if i.len() >= 2 && i[0] == 42 && i[1] == 42 {
        Ok((vstd::slice::slice_subrange(i, 2, i.len()), Label::SubWildcard))
    } else {
        Err(MatcherSyntaxError)
    }
}

/// Parses `***`: zero or more labels.
pub fn parse_allwildcard(i: &[u8]) -> (r: Result<(&[u8], Label), MatcherSyntaxError>)
    ensures
        match r {
            Ok(v) => i@.len() >= 3 && i@[0] == 42 && i@[1] == 42 && i@[2] == 42 && v.0@ == i@.skip(
                3,
            ) && v.1 matches Label::AllWildcard,
            Err(_) => !(i@.len() >= 3 && i@[0] == 42 && i@[1] == 42 && i@[2] == 42),
        },
{
    if i.len() >= 3 && i[0] == 42 && i[1] == 42 && i[2] == 42 {
        Ok((vstd::slice::slice_subrange(i, 3, i.len()), Label::AllWildcard))
    } else {
        Err(MatcherSyntaxError)
    }
}

/// Parses a `/regex/` label. The flag on the label marks a pattern
/// with an escaped dot: the eager kind, which the matcher rejects.
pub fn parse_regex(i: &[u8]) -> (r: Result<(&[u8], Label), MatcherSyntaxError>)
    ensures
        match r {
            Ok(v) => ({
                let e = spec_regex_end(i@, 1);
                let pat = spec_unescape(i@.subrange(1, e));
                &&& i@.len() >= 1 && i@[0] == 47
                &&& 1 <= e < i@.len()
                &&& valid_utf8(pat)
                &&& regex_accepts(decode_utf8(pat))
                &&& v.0@ == i@.skip(e + 1)
                &&& (v.1 matches Label::Regex(eager, p) && eager == spec_has_escaped_dot(pat)
                    && encode_utf8(p.pattern()) == pat)
            }),
            Err(_) => ({
                let e = spec_regex_end(i@, 1);
                !(i@.len() >= 1 && i@[0] == 47 && e >= 1 && valid_utf8(
                    spec_unescape(i@.subrange(1, e)),
                ) && regex_accepts(decode_utf8(spec_unescape(i@.subrange(1, e)))))
            }),
        },
{
    if i.len() == 0 || i[0] != 47 {
        return Err(MatcherSyntaxError);
    }
    // find the closing slash, skipping escaped bytes
    let mut k: usize = 1;
    loop
        invariant
            1 <= k,
            k <= i@.len() + 1,
            spec_regex_end(i@, 1) == spec_regex_end(i@, k as int),
        ensures
            k < i@.len() && i@[k as int] == 47 && spec_regex_end(i@, 1) == k as int,
        decreases i@.len() + 1 - k,
    {
        if k >= i.len() {
            proof {
                assert(spec_regex_end(i@, k as int) == -1);
            }
            return Err(MatcherSyntaxError);
        }
        if i[k] == 47 {
            break;
        }
        if i[k] == 92 {
            k += 1;
            if k < i.len() {
                k += 1;
            } else {
                proof {
                    assert(spec_regex_end(i@, k as int + 1) == -1);
                }
                return Err(MatcherSyntaxError);
            }
        } else {
            k += 1;
        }
    }
    let e = k;
    proof {
        assert(spec_regex_end(i@, 1) == e as int);
    }
    let raw = vstd::slice::slice_subrange(i, 1, e);
    let ghost rawv = i@.subrange(1, e as int);
    // unescape `\/` into `/`
    let mut pat: Vec<u8> = Vec::new();
    let mut j: usize = 0;
    proof {
        assert(rawv.skip(0) =~= rawv);
        assert(pat@ + spec_unescape(rawv) =~= spec_unescape(rawv));
    }
    while j < raw.len()
        invariant
            j <= raw@.len(),
            raw@ == rawv,
            spec_unescape(rawv) == pat@ + spec_unescape(rawv.skip(j as int)),
        decreases raw@.len() - j,
    {
        let ghost pat0 = pat@;
        proof {
            assert(rawv.skip(j as int)[0] == rawv[j as int]);
            if j + 1 < rawv.len() {
                assert(rawv.skip(j as int)[1] == rawv[j as int + 1]);
            }
            assert(rawv.skip(j as int).skip(1) =~= rawv.skip(j as int + 1));
            if j + 2 <= rawv.len() {
                assert(rawv.skip(j as int).skip(2) =~= rawv.skip(j as int + 2));
            }
        }
        if j + 1 < raw.len() && raw[j] == 92 && raw[j + 1] == 47 {
            pat.push(47);
            j += 2;
            proof {
                assert(pat@ =~= pat0.push(47u8));
                assert(pat0 + (seq![47u8] + spec_unescape(rawv.skip(j as int))) =~= pat@
                    + spec_unescape(rawv.skip(j as int)));
            }
        } else {
            pat.push(raw[j]);
            j += 1;
            proof {
                assert(pat@ =~= pat0.push(rawv[j as int - 1]));
                assert(pat0 + (seq![rawv[j - 1]] + spec_unescape(rawv.skip(j as int))) =~= pat@
                    + spec_unescape(rawv.skip(j as int)));
            }
        }
    }
    proof {
        assert(rawv.skip(rawv.len() as int) =~= Seq::<u8>::empty());
        assert(pat@ + Seq::<u8>::empty() =~= pat@);
        assert(pat@ == spec_unescape(rawv));
    }
    // does the pattern keep an escaped dot?
    let mut eager = false;
    let mut d: usize = 0;
    let ghost patv = pat@;
    proof {
        assert(patv.skip(0) =~= patv);
    }
    while d < pat.len() && d + 1 < pat.len()
        invariant
            patv == pat@,
            d <= pat@.len(),
            spec_has_escaped_dot(patv) == (eager || spec_has_escaped_dot(patv.skip(d as int))),
        decreases pat@.len() - d,
    {
        proof {
            assert(patv.skip(d as int)[0] == patv[d as int]);
            assert(patv.skip(d as int)[1] == patv[d as int + 1]);
            assert(patv.skip(d as int).skip(1) =~= patv.skip(d as int + 1));
        }
        if pat[d] == 92 && pat[d + 1] == 46 {
            eager = true;
        }
        d += 1;
    }
    proof {
        assert(patv.skip(d as int).len() < 2);
        assert(!spec_has_escaped_dot(patv.skip(d as int)));
    }
    let text = match crate::protocol::string_from_utf8(pat) {
        Some(t) => t,
        None => {
            proof {
                assert(!valid_utf8(patv));
            }
            return Err(MatcherSyntaxError);
        },
    };
    proof {
        vstd::utf8::encode_utf8_decode_utf8(text@);
        assert(text@ == decode_utf8(patv));
    }
    let compiled = match Pattern::new(text.as_str()) {
        Ok(c) => c,
        Err(_) => {
            proof {
                assert(!regex_accepts(decode_utf8(patv)));
            }
            return Err(MatcherSyntaxError);
        },
    };
    let rest = vstd::slice::slice_subrange(i, e + 1, i.len());
    Ok((rest, Label::Regex(eager, compiled)))
}

/// Parses one label, trying the wildcard kinds, then a regular
/// expression, then a literal.
pub fn parse_label(i: &[u8]) -> (r: Result<(&[u8], Label), MatcherSyntaxError>)
    ensures
        match r {
            Ok(v) => (spec_label_parse(i@) matches Some((m, n)) && spec_label_models(v.1, m)
                && v.0@ == i@.skip(n) && 1 <= n <= i@.len()),
            Err(_) => spec_label_parse(i@) is None,
        },
{
    match parse_allwildcard(i) {
        Ok(v) => {
            return Ok(v);
        },
        Err(_) => {},
    }
    match parse_subwildcard(i) {
        Ok(v) => {
            return Ok(v);
        },
        Err(_) => {},
    }
    match parse_wildcard(i) {
        Ok(v) => {
            return Ok(v);
        },
        Err(_) => {},
    }
    if i.len() >= 1 && i[0] == 47 {
        match parse_regex(i) {
            Ok(v) => {
                proof {
                    let e = spec_regex_end(i@, 1);
                    let pat = spec_unescape(i@.subrange(1, e));
                    vstd::utf8::encode_utf8_decode_utf8(decode_utf8(pat));
                }
                return Ok(v);
            },
            Err(_) => {
                return Err(MatcherSyntaxError);
            },
        }
    }
    match parse_basic(i) {
        Ok(v) => {
            proof {
                assert(spec_basic_len(i@, 0) >= 1);
                assert(spec_is_name_byte(i@[0]));
                assert(i@[0] != 42 && i@[0] != 47);
            }
            Ok(v)
        },
        Err(_) => Err(MatcherSyntaxError),
    }
}

/// Parses a matcher: labels separated by dots.
pub fn parse_zone_matcher(i: &[u8]) -> (r: Result<(&[u8], ZoneMatcher), MatcherSyntaxError>)
    ensures
        r is Ok,
        ({
            let (ms, n) = spec_matcher_parse(i@);
            r matches Ok(v) && spec_labels_model(v.1@, ms) && v.0@ == i@.skip(n) && 0 <= n
                <= i@.len()
        }),
    decreases i@.len(),
{
    let ghost (ms, n) = spec_matcher_parse(i@);
    match parse_label(i) {
        Err(_) => {
            let empty: ZoneMatcher = Vec::new();
            proof {
                assert(i@.skip(0) =~= i@);
                assert(spec_labels_model(empty@, ms));
            }
            Ok((i, empty))
        },
        Ok((rest, label)) => {
            let ghost (m0, n0) = spec_label_parse(i@)->0;
            if rest.len() >= 1 && rest[0] == 46 {
                proof {
                    assert(i@.skip(n0)[0] == i@[n0]);
                    assert(i@.skip(n0).skip(1) =~= i@.skip(n0 + 1));
                }
                let after_dot = vstd::slice::slice_subrange(rest, 1, rest.len());
                let (rest2, mut more) = match parse_zone_matcher(after_dot) {
                    Ok(v) => v,
                    Err(e) => {
                        return Err(e);
                    },
                };
                if more.len() == 0 {
                    let mut one: ZoneMatcher = Vec::new();
                    one.push(label);
                    proof {
                        assert(spec_labels_model(one@, seq![m0]));
                    }
                    Ok((rest, one))
                } else {
                    more.insert(0, label);
                    proof {
                        let (ms2, n2) = spec_matcher_parse(i@.skip(n0 + 1));
                        assert(more@ =~= seq![label] + more@.drop_first());
                        assert(spec_labels_model(more@, seq![m0] + ms2));
                        assert(i@.skip(n0 + 1).skip(n2) =~= i@.skip(n0 + 1 + n2));
                    }
                    Ok((rest2, more))
                }
            } else {
                let mut one: ZoneMatcher = Vec::new();
                one.push(label);
                proof {
                    assert(spec_labels_model(one@, seq![m0]));
                }
                Ok((rest, one))
            }
        },
    }
}

/// Parses a matcher expression: matchers separated by commas.
pub fn parse_zone_matchers(i: &[u8]) -> (r: Result<(&[u8], Vec<ZoneMatcher>), MatcherSyntaxError>)
    ensures
        r is Ok,
        ({
            let (ms, n) = spec_matchers_parse(i@);
            r matches Ok(v) && spec_matchers_model(v.1@, ms) && v.0@ == i@.skip(n) && 0 <= n
                <= i@.len()
        }),
    decreases i@.len(),
{
    let ghost (ms, n) = spec_matchers_parse(i@);
    let (rest, matcher) = match parse_zone_matcher(i) {
        Ok(v) => v,
        Err(e) => {
            return Err(e);
        },
    };
    let ghost (m0, n0) = spec_matcher_parse(i@);
    if matcher.len() == 0 {
        let empty: Vec<ZoneMatcher> = Vec::new();
        proof {
            assert(i@.skip(0) =~= i@);
            assert(spec_matchers_model(empty@, ms));
        }
        return Ok((i, empty));
    }
    if rest.len() >= 1 && rest[0] == 44 {
        proof {
            assert(i@.skip(n0)[0] == i@[n0]);
            assert(i@.skip(n0).skip(1) =~= i@.skip(n0 + 1));
            assert(n0 >= 1);
        }
        let after_comma = vstd::slice::slice_subrange(rest, 1, rest.len());
        let (rest2, mut more) = match parse_zone_matchers(after_comma) {
            Ok(v) => v,
            Err(e) => {
                return Err(e);
            },
        };
        if more.len() == 0 {
            let mut one: Vec<ZoneMatcher> = Vec::new();
            one.push(matcher);
            proof {
                assert(spec_matchers_model(one@, seq![m0]));
            }
            Ok((rest, one))
        } else {
            more.insert(0, matcher);
            proof {
                let (ms2, n2) = spec_matchers_parse(i@.skip(n0 + 1));
                assert(more@ =~= seq![matcher] + more@.drop_first());
                assert(spec_matchers_model(more@, seq![m0] + ms2));
                assert(i@.skip(n0 + 1).skip(n2) =~= i@.skip(n0 + 1 + n2));
            }
            Ok((rest2, more))
        }
    } else {
        let mut one: Vec<ZoneMatcher> = Vec::new();
        one.push(matcher);
        proof {
            assert(spec_matchers_model(one@, seq![m0]));
        }
        Ok((rest, one))
    }
}

} // verus!
