//! The zone matcher and the resolution engine: matching a query name
//! against a zone's label patterns, rewriting CNAME/ANAME targets, and
//! assembling the answer, authority and additional sections for a
//! question.

use vstd::prelude::*;
use vstd::string::StrSliceExecFns;
use vstd::string::StringExecFns;
use crate::config::{Config, Endpoint, IpRepr, Label, RnsHost, Zone, ZoneMatcher};
use crate::config::{spec_no_eager_matcher, spec_no_eager_matchers, spec_wf_config};
use crate::protocol::{Message, Question, QuestionV, Resource, ResourceV};
use crate::protocol::spec_name_bytes;
use crate::regex::regex_match_of;

verus! {

// ---------------------------------------------------------------------
// Lowercasing.
// ---------------------------------------------------------------------

/// What Unicode lowercasing returns for a string; it depends on the
/// characters alone.
pub uninterp spec fn lower_of(s: Seq<char>) -> Seq<char>;

/// Relies on str::to_lowercase: the result depends on the characters
/// alone.
#[verifier::external_body]
fn lowercase(s: &str) -> (r: String)
    ensures
        r@ == lower_of(s@),
{
    s.to_lowercase()
}

/// A query name with every label lowercased.
pub open spec fn spec_lowered(q: Seq<Seq<char>>) -> Seq<Seq<char>> {
    q.map_values(|l: Seq<char>| lower_of(l))
}

// ---------------------------------------------------------------------
// Dotted names as label lists.
// ---------------------------------------------------------------------

/// The index of the first occurrence of `c` at or after `i`, or the
/// length when there is none.
pub open spec fn spec_first_at(s: Seq<char>, c: char, i: int) -> int
    decreases s.len() - i,
{
    if i < 0 || i >= s.len() {
        s.len() as int
    } else if s[i] == c {
        i
    } else {
        spec_first_at(s, c, i + 1)
    }
}

/// Splitting on a separator, with the semantics of str::split: one
/// piece more than there are separators, empty pieces kept.
pub open spec fn spec_split_char(s: Seq<char>, c: char) -> Seq<Seq<char>>
    decreases s.len(),
{
    let i = spec_first_at(s, c, 0);
    if 0 <= i < s.len() {
        seq![s.take(i)] + spec_split_char(s.skip(i + 1), c)
    } else {
        seq![s]
    }
}

pub open spec fn spec_split_dots(s: Seq<char>) -> Seq<Seq<char>> {
    spec_split_char(s, '.')
}

/// Joining labels with `.`, the inverse direction.
pub open spec fn spec_join_dots(name: Seq<Seq<char>>) -> Seq<char>
    decreases name.len(),
{
    if name.len() == 0 {
        Seq::empty()
    } else if name.len() == 1 {
        name[0]
    } else {
        name[0] + seq!['.'] + spec_join_dots(name.drop_first())
    }
}

proof fn lemma_first_at_here(s: Seq<char>, c: char, from: int, at: int)
    requires
        0 <= from <= at < s.len(),
        forall|j: int| from <= j < at ==> s[j] != c,
        s[at] == c,
    ensures
        spec_first_at(s, c, from) == at,
    decreases at - from,
{
    if from < at {
        lemma_first_at_here(s, c, from + 1, at);
    }
}

proof fn lemma_first_at_none(s: Seq<char>, c: char, from: int)
    requires
        0 <= from <= s.len(),
        forall|j: int| from <= j < s.len() ==> s[j] != c,
    ensures
        spec_first_at(s, c, from) == s.len(),
    decreases s.len() - from,
{
    if from < s.len() {
        lemma_first_at_none(s, c, from + 1);
    }
}

/// Splits a string on a separator, as str::split does.
pub fn split_char(s: &str, c: char) -> (parts: Vec<String>)
    ensures
        parts.deep_view() == spec_split_char(s@, c),
{
    let n = s.unicode_len();
    let mut parts: Vec<String> = Vec::new();
    let mut start: usize = 0;
    let mut i: usize = 0;
    proof {
        assert(s@.skip(0) =~= s@);
        assert(parts.deep_view() =~= Seq::<Seq<char>>::empty());
        assert(parts.deep_view() + spec_split_char(s@, c) =~= spec_split_char(s@, c));
    }
    while i < n
        invariant
            n == s@.len(),
            start <= i <= n,
            forall|j: int| start <= j < i ==> s@[j] != c,
            spec_split_char(s@, c) == parts.deep_view() + spec_split_char(
                s@.skip(start as int),
                c,
            ),
        decreases n - i,
    {
        if s.get_char(i) == c {
            let piece = s.substring_char(start, i).to_owned();
            proof {
                let tail = s@.skip(start as int);
                assert(forall|k: int|
                    0 <= k < tail.len() ==> tail[k] == s@[start as int + k]);
                lemma_first_at_here(tail, c, 0, i as int - start as int);
                assert(tail.take(i as int - start as int) =~= s@.subrange(
                    start as int,
                    i as int,
                ));
                assert(tail.skip(i as int - start as int + 1) =~= s@.skip(i as int + 1));
                assert(parts.deep_view().push(piece@) =~= parts.deep_view() + seq![piece@]);
            }
            let ghost before = parts.deep_view();
            parts.push(piece);
            proof {
                assert(parts.deep_view() =~~= before + seq![s@.subrange(
                    start as int,
                    i as int,
                )]);
                assert((before + seq![s@.subrange(start as int, i as int)]) + spec_split_dots(
                    s@.skip(i as int + 1),
                ) =~= before + (seq![s@.subrange(start as int, i as int)] + spec_split_dots(
                    s@.skip(i as int + 1),
                )));
            }
            start = i + 1;
        }
        i += 1;
    }
    let last = s.substring_char(start, n).to_owned();
    proof {
        let tail = s@.skip(start as int);
        assert(forall|k: int| 0 <= k < tail.len() ==> tail[k] == s@[start as int + k]);
        lemma_first_at_none(tail, c, 0);
        assert(tail =~= s@.subrange(start as int, n as int));
        assert(spec_split_char(tail, c) == seq![tail]);
    }
    let ghost before = parts.deep_view();
    parts.push(last);
    proof {
        assert(parts.deep_view() =~~= before + seq![s@.skip(start as int)]);
    }
    parts
}

/// Splits a dotted name into its labels.
pub fn split_dots(s: &str) -> (parts: Vec<String>)
    ensures
        parts.deep_view() == spec_split_dots(s@),
{
    split_char(s, '.')
}

proof fn lemma_join_dots_snoc(name: Seq<Seq<char>>, i: int)
    requires
        1 <= i < name.len(),
    ensures
        spec_join_dots(name.take(i + 1)) == spec_join_dots(name.take(i)) + seq!['.'] + name[i],
    decreases i,
{
    if i == 1 {
        assert(name.take(2) =~= seq![name[0], name[1]]);
        assert(name.take(2).drop_first() =~= seq![name[1]]);
        assert(name.take(1) =~= seq![name[0]]);
        assert(spec_join_dots(seq![name[1]]) == name[1]);
    } else {
        lemma_join_dots_snoc(name.drop_first(), i - 1);
        assert(name.take(i + 1).drop_first() =~= name.drop_first().take(i));
        assert(name.take(i).drop_first() =~= name.drop_first().take(i - 1));
        assert(name.take(i + 1).len() >= 2);
        assert(name.take(i + 1)[0] == name[0]);
        assert(name.take(i)[0] == name[0]);
        assert(name.drop_first()[i - 1] == name[i]);
        assert(spec_join_dots(name.take(i + 1)) =~= spec_join_dots(name.take(i)) + seq!['.']
            + name[i]);
    }
}

/// Joins labels with `.` separators.
pub fn join_dots(name: &Vec<String>) -> (r: String)
    ensures
        r@ == spec_join_dots(name.deep_view()),
{
    let mut out = String::new();
    let mut i: usize = 0;
    proof {
        reveal_strlit(".");
    }
    while i < name.len()
        invariant
            i <= name@.len(),
            name.deep_view().len() == name@.len(),
            out@ == spec_join_dots(name.deep_view().take(i as int)),
            "."@ =~= seq!['.'],
        decreases name@.len() - i,
    {
        proof {
            assert(name.deep_view()[i as int] == name@[i as int]@);
        }
        if i > 0 {
            out.append(".");
            proof {
                lemma_join_dots_snoc(name.deep_view(), i as int);
            }
        } else {
            proof {
                assert(name.deep_view().take(1) =~= seq![name.deep_view()[0]]);
            }
        }
        out.append(name[i].as_str());
        i += 1;
    }
    proof {
        assert(name.deep_view().take(name@.len() as int) =~= name.deep_view());
    }
    out
}

// ---------------------------------------------------------------------
// CNAME/ANAME target rewriting.
// ---------------------------------------------------------------------

/// The rewritten alias target. An absolute destination (trailing dot)
/// is the destination with the dot stripped. A relative destination is
/// prefixed to the parent of the query name: the query name with its
/// leftmost label removed.
pub open spec fn spec_rewrite_xname(dest: Seq<char>, qname: Seq<char>) -> Seq<char> {
    if dest.len() > 0 && dest.last() == '.' {
        dest.drop_last()
    } else {
        let i = spec_first_at(qname, '.', 0);
        let parent = if 0 <= i < qname.len() {
            qname.skip(i + 1)
        } else {
            qname
        };
        dest + seq!['.'] + parent
    }
}

/// Computes the full name an alias record points to. A destination
/// ending in `.` is absolute and only loses the trailing dot; any
/// other destination is relative to the parent of the query name.
pub fn rewrite_xname(xname_destination: &str, qname: &str) -> (r: String)
    ensures
        r@ == spec_rewrite_xname(xname_destination@, qname@),
        xname_destination@.len() > 0 && xname_destination@.last() == '.' ==> r@
            == xname_destination@.drop_last(),
{
    let n = xname_destination.unicode_len();
    if n > 0 && xname_destination.get_char(n - 1) == '.' {
        // the destination is absolute
        let stripped = xname_destination.substring_char(0, n - 1);
        proof {
            assert(xname_destination@.subrange(0, n as int - 1) =~= xname_destination@
                .drop_last());
        }
        stripped.to_owned()
    } else {
        // the destination is relative; make it absolute under the
        // parent of the query name
        let qn = qname.unicode_len();
        let mut i: usize = 0;
        let mut dot: Option<usize> = None;
        while i < qn
            invariant
                qn == qname@.len(),
                i <= qn,
                dot is None ==> forall|j: int| 0 <= j < i ==> qname@[j] != '.',
                dot is Some ==> 0 <= dot->0 < qn && qname@[dot->0 as int] == '.' && (forall|
                    j: int,
                |
                    0 <= j < dot->0 ==> qname@[j] != '.'),
            decreases qn - i,
        {
            if dot.is_none() && qname.get_char(i) == '.' {
                dot = Some(i);
            }
            i += 1;
        }
        let parent: &str = match dot {
            Some(d) => {
                proof {
                    lemma_first_at_here(qname@, '.', 0, d as int);
                }
                qname.substring_char(d + 1, qn)
            },
            None => {
                proof {
                    lemma_first_at_none(qname@, '.', 0);
                }
                qname
            },
        };
        proof {
            reveal_strlit(".");
            assert("."@ =~= seq!['.']);
        }
        let mut out = xname_destination.to_owned();
        out.append(".");
        out.append(parent);
        proof {
            if dot is Some {
                assert(qname@.subrange(dot->0 as int + 1, qn as int) =~= qname@.skip(
                    dot->0 as int + 1,
                ));
            }
        }
        out
    }
}

// ---------------------------------------------------------------------
// The zone matcher.
// ---------------------------------------------------------------------

/// Whether one matcher accepts an (already lowercased) query name,
/// walking both right to left. A sub-wildcard consumes all remaining
/// labels but requires at least one; an all-wildcard consumes all
/// remaining labels and ends the walk successfully.
pub open spec fn spec_matcher_matches(m: Seq<Label>, q: Seq<Seq<char>>) -> bool
    decreases m.len(),
{
    if m.len() == 0 {
        q.len() == 0
    } else {
        match m.last() {
            Label::Basic(s) => q.len() > 0 && q.last() == s@ && spec_matcher_matches(
                m.drop_last(),
                q.drop_last(),
            ),
            Label::Regex(eager, rx) => !eager && q.len() > 0 && regex_match_of(
                rx.pattern(),
                q.last(),
            ) && spec_matcher_matches(m.drop_last(), q.drop_last()),
            Label::Wildcard => q.len() > 0 && spec_matcher_matches(m.drop_last(), q.drop_last()),
            Label::SubWildcard => q.len() > 0 && spec_matcher_matches(
                m.drop_last(),
                Seq::empty(),
            ),
            Label::AllWildcard => true,
        }
    }
}

/// Whether any of a zone's matchers accepts the query name; the name
/// is lowercased first, so matching is case-insensitive.
pub open spec fn spec_zone_matches(ms: Seq<ZoneMatcher>, qname: Seq<Seq<char>>) -> bool {
    exists|i: int| 0 <= i < ms.len() && spec_matcher_matches(#[trigger] ms[i]@, spec_lowered(qname))
}

/// Matching is case-insensitive in the query name: two query names
/// with the same lowercase form match exactly the same matcher lists.
pub proof fn lemma_match_case_insensitive(
    ms: Seq<ZoneMatcher>,
    q1: Seq<Seq<char>>,
    q2: Seq<Seq<char>>,
)
    requires
        spec_lowered(q1) == spec_lowered(q2),
    ensures
        spec_zone_matches(ms, q1) == spec_zone_matches(ms, q2),
{
}

fn matcher_matches(m: &ZoneMatcher, lowered: &Vec<String>) -> (r: bool)
    requires
        spec_no_eager_matcher(m@),
    ensures
        r == spec_matcher_matches(m@, lowered.deep_view()),
{
    let ghost target = spec_matcher_matches(m@, lowered.deep_view());
    let mut mi: usize = m.len();
    let mut qi: usize = lowered.len();
    proof {
        assert(m@.take(mi as int) =~= m@);
        assert(lowered.deep_view().take(qi as int) =~= lowered.deep_view());
        assert(lowered.deep_view().len() == lowered@.len());
    }
    loop
        invariant
            mi <= m@.len(),
            qi <= lowered@.len(),
            lowered.deep_view().len() == lowered@.len(),
            spec_no_eager_matcher(m@),
            target == spec_matcher_matches(m@, lowered.deep_view()),
            target == spec_matcher_matches(
                m@.take(mi as int),
                lowered.deep_view().take(qi as int),
            ),
        decreases mi,
    {
        let ghost mpre = m@.take(mi as int);
        let ghost qpre = lowered.deep_view().take(qi as int);
        if mi == 0 {
            return qi == 0;
        }
        proof {
            assert(mpre.last() == m@[mi as int - 1]);
            assert(mpre.drop_last() =~= m@.take(mi as int - 1));
            if qi > 0 {
                assert(qpre.last() == lowered.deep_view()[qi as int - 1]);
                assert(qpre.drop_last() =~= lowered.deep_view().take(qi as int - 1));
            }
            assert(qpre.len() == qi as int);
        }
        match &m[mi - 1] {
            Label::Basic(s) => {
                if qi == 0 {
                    return false;
                }
                if !(lowered[qi - 1] == *s) {
                    return false;
                }
                mi -= 1;
                qi -= 1;
            },
            Label::Regex(eager, rx) => {
                if *eager {
                    // excluded by the precondition
                    proof {
                        assert(m@[mi as int - 1] matches Label::Regex(true, _));
                        assert(false);
                    }
                    return false;
                }
                if qi == 0 {
                    return false;
                }
                if !rx.is_match(lowered[qi - 1].as_str()) {
                    return false;
                }
                mi -= 1;
                qi -= 1;
            },
            Label::Wildcard => {
                if qi == 0 {
                    return false;
                }
                mi -= 1;
                qi -= 1;
            },
            Label::SubWildcard => {
                if qi == 0 {
                    return false;
                }
                qi = 0;
                mi -= 1;
                proof {
                    assert(lowered.deep_view().take(0) =~= Seq::<Seq<char>>::empty());
                }
            },
            Label::AllWildcard => {
                return true;
            },
        }
    }
}

/// Whether the query name matches any of the matchers. Matching is
/// case-insensitive in the query name: its labels are lowercased before
/// comparison.
pub fn does_match(matchers: &[ZoneMatcher], qname: &[String]) -> (r: bool)
    requires
        spec_no_eager_matchers(matchers@),
    ensures
        r == spec_zone_matches(matchers@, qname.deep_view()),
{
    let mut lowered: Vec<String> = Vec::new();
    let mut i: usize = 0;
    while i < qname.len()
        invariant
            i <= qname@.len(),
            qname.deep_view().len() == qname@.len(),
            lowered.deep_view() == spec_lowered(qname.deep_view()).take(i as int),
        decreases qname@.len() - i,
    {
        proof {
            assert(qname.deep_view()[i as int] == qname@[i as int]@);
            assert(lowered.deep_view().len() == i as int);
        }
        let lab = lowercase(qname[i].as_str());
        lowered.push(lab);
        i += 1;
        proof {
            assert(lowered.deep_view() =~~= spec_lowered(qname.deep_view()).take(i as int));
        }
    }
    proof {
        assert(lowered.deep_view() =~~= spec_lowered(qname.deep_view()));
    }
    let mut k: usize = 0;
    while k < matchers.len()
        invariant
            k <= matchers@.len(),
            spec_no_eager_matchers(matchers@),
            lowered.deep_view() == spec_lowered(qname.deep_view()),
            forall|j: int|
                0 <= j < k ==> !spec_matcher_matches(
                    #[trigger] matchers@[j]@,
                    spec_lowered(qname.deep_view()),
                ),
        decreases matchers@.len() - k,
    {
        if matcher_matches(&matchers[k], &lowered) {
            return true;
        }
        k += 1;
    }
    false
}

// ---------------------------------------------------------------------
// The resolution engine's data model.
// ---------------------------------------------------------------------

/// What an upstream resolver answered: the three sections on success,
/// or the failure named by the response code.
#[derive(Debug, Clone, PartialEq)]
pub enum Response {
    Records(Vec<Resource>, Vec<Resource>, Vec<Resource>),
    FormatError,
    ServerFailure,
    NameError,
    NotImplemented,
    Refused,
}

/// An upstream lookup the engine still needs: which server to ask and
/// what to ask it.
#[derive(Debug, Clone, PartialEq)]
pub struct Lookup {
    pub server: Endpoint,
    pub question: Question,
}

/// One already-performed upstream exchange.
#[derive(Debug, Clone, PartialEq)]
pub struct UpstreamEntry {
    pub server: Endpoint,
    pub question: Question,
    pub response: Response,
}

/// The upstream exchanges available to the engine. The engine never
/// talks to the network itself: the caller performs the lookups the
/// engine asks for and runs it again with a fuller table.
#[derive(Debug, Clone, PartialEq, Default)]
pub struct UpstreamTable {
    pub entries: Vec<UpstreamEntry>,
}

/// The engine's result for one question: the three response sections,
/// and the upstream lookups that are still missing. The sections are
/// final only when `pending` is empty.
#[derive(Debug, Clone, PartialEq, Default)]
pub struct DnsOutcome {
    pub answer: Vec<Resource>,
    pub authority: Vec<Resource>,
    pub additional: Vec<Resource>,
    pub pending: Vec<Lookup>,
}

#[verifier::ext_equal]
pub ghost enum IpV {
    V4(Seq<u8>),
    V6(Seq<u8>),
}

#[verifier::ext_equal]
pub ghost struct EndpointV {
    pub ip: IpV,
    pub port: u16,
}

#[verifier::ext_equal]
pub ghost enum ResponseV {
    Records(Seq<ResourceV>, Seq<ResourceV>, Seq<ResourceV>),
    FormatError,
    ServerFailure,
    NameError,
    NotImplemented,
    Refused,
}

#[verifier::ext_equal]
pub ghost struct LookupV {
    pub server: EndpointV,
    pub question: QuestionV,
}

#[verifier::ext_equal]
pub ghost struct UpstreamEntryV {
    pub server: EndpointV,
    pub question: QuestionV,
    pub response: ResponseV,
}

#[verifier::ext_equal]
pub ghost struct OutcomeV {
    pub answer: Seq<ResourceV>,
    pub authority: Seq<ResourceV>,
    pub additional: Seq<ResourceV>,
    pub pending: Seq<LookupV>,
}

impl DeepView for Endpoint {
    type V = EndpointV;

    open spec fn deep_view(&self) -> EndpointV {
        EndpointV {
            ip: match self.ip {
                IpRepr::V4(a) => IpV::V4(a@),
                IpRepr::V6(a) => IpV::V6(a@),
            },
            port: self.port,
        }
    }
}

impl DeepView for Response {
    type V = ResponseV;

    open spec fn deep_view(&self) -> ResponseV {
        match self {
            Response::Records(a, h, d) => ResponseV::Records(
                a.deep_view(),
                h.deep_view(),
                d.deep_view(),
            ),
            Response::FormatError => ResponseV::FormatError,
            Response::ServerFailure => ResponseV::ServerFailure,
            Response::NameError => ResponseV::NameError,
            Response::NotImplemented => ResponseV::NotImplemented,
            Response::Refused => ResponseV::Refused,
        }
    }
}

impl DeepView for Lookup {
    type V = LookupV;

    open spec fn deep_view(&self) -> LookupV {
        LookupV { server: self.server.deep_view(), question: self.question.deep_view() }
    }
}

impl DeepView for UpstreamEntry {
    type V = UpstreamEntryV;

    open spec fn deep_view(&self) -> UpstreamEntryV {
        UpstreamEntryV {
            server: self.server.deep_view(),
            question: self.question.deep_view(),
            response: self.response.deep_view(),
        }
    }
}

impl DeepView for UpstreamTable {
    type V = Seq<UpstreamEntryV>;

    open spec fn deep_view(&self) -> Seq<UpstreamEntryV> {
        self.entries.deep_view()
    }
}

impl DeepView for DnsOutcome {
    type V = OutcomeV;

    open spec fn deep_view(&self) -> OutcomeV {
        OutcomeV {
            answer: self.answer.deep_view(),
            authority: self.authority.deep_view(),
            additional: self.additional.deep_view(),
            pending: self.pending.deep_view(),
        }
    }
}

// ---------------------------------------------------------------------
// The resolution engine, modelled.
// ---------------------------------------------------------------------

/// A record TTL on the wire: the configured seconds, wrapped into 32
/// bits.
pub open spec fn spec_clip_ttl(t: u64) -> u32 {
    (t % 0x100000000) as u32
}

pub open spec fn spec_empty_outcome() -> OutcomeV {
    OutcomeV {
        answer: Seq::empty(),
        authority: Seq::empty(),
        additional: Seq::empty(),
        pending: Seq::empty(),
    }
}

/// The response recorded in the table for this server and question:
/// the first matching entry, if any.
pub open spec fn spec_lookup_upstream(
    tbl: Seq<UpstreamEntryV>,
    server: EndpointV,
    q: QuestionV,
) -> Option<ResponseV>
    decreases tbl.len(),
{
    if tbl.len() == 0 {
        None
    } else if tbl[0].server == server && tbl[0].question == q {
        Some(tbl[0].response)
    } else {
        spec_lookup_upstream(tbl.drop_first(), server, q)
    }
}

/// The first usable address in a list of answer records: an A record
/// provides an IPv4 address, an AAAA record an IPv6 one. Records whose
/// rdata is too short for their type are skipped.
pub open spec fn spec_addr_from_answers(ans: Seq<ResourceV>, port: u16) -> Option<EndpointV>
    decreases ans.len(),
{
    if ans.len() == 0 {
        None
    } else {
        let r = ans[0];
        if r.rtype == 1 && r.rdata.len() >= 4 {
            Some(EndpointV { ip: IpV::V4(r.rdata.take(4)), port })
        } else if r.rtype == 28 && r.rdata.len() >= 16 {
            Some(EndpointV { ip: IpV::V6(r.rdata.take(16)), port })
        } else {
            spec_addr_from_answers(ans.drop_first(), port)
        }
    }
}

/// Resolves a question. With no fuel left the outcome is empty; the
/// caller picks a depth bound well beyond any sane alias chain.
pub open spec fn spec_handle_dns(
    q: QuestionV,
    resolver: EndpointV,
    config: Config,
    tbl: Seq<UpstreamEntryV>,
    fuel: nat,
) -> OutcomeV
    decreases fuel, 0nat, 0nat, 0nat,
{
    if fuel == 0 {
        spec_empty_outcome()
    } else {
        spec_scan_zones(config.zones@, q, resolver, config, tbl, (fuel - 1) as nat)
    }
}

/// Walks the zones in configuration order. The first matching zone
/// that yields answer or authority records ends the scan; additional
/// records and pending lookups accumulate.
pub open spec fn spec_scan_zones(
    zones: Seq<Zone>,
    q: QuestionV,
    resolver: EndpointV,
    config: Config,
    tbl: Seq<UpstreamEntryV>,
    sub: nat,
) -> OutcomeV
    decreases sub, 3nat, zones.len(), 0nat,
{
    if zones.len() == 0 {
        spec_empty_outcome()
    } else {
        let zone = zones[0];
        if spec_zone_matches(zone.matchers@, q.qname) {
            let zr = spec_zone_outcome(zone, q, resolver, config, tbl, sub);
            if zr.answer.len() > 0 || zr.authority.len() > 0 {
                zr
            } else {
                let rest = spec_scan_zones(zones.drop_first(), q, resolver, config, tbl, sub);
                OutcomeV {
                    answer: rest.answer,
                    authority: rest.authority,
                    additional: zr.additional + rest.additional,
                    pending: zr.pending + rest.pending,
                }
            }
        } else {
            spec_scan_zones(zones.drop_first(), q, resolver, config, tbl, sub)
        }
    }
}

/// One matched zone's contribution, by question type: CNAME chasing
/// first, then ANAME for address queries, then the plain record kinds,
/// and recursive-resolver delegation when nothing else answered.
pub open spec fn spec_zone_outcome(
    zone: Zone,
    q: QuestionV,
    resolver: EndpointV,
    config: Config,
    tbl: Seq<UpstreamEntryV>,
    sub: nat,
) -> OutcomeV
    decreases sub, 2nat, 0nat, 0nat,
{
    let qname_str = spec_join_dots(q.qname);
    let base: OutcomeV = if zone.records.cname@.len() > 0 && q.qtype != 5 {
        let (ans, pend) = spec_cname_fold(
            zone.records.cname@,
            q,
            qname_str,
            resolver,
            config,
            tbl,
            sub,
        );
        OutcomeV { answer: ans, authority: Seq::empty(), additional: Seq::empty(), pending: pend }
    } else if (q.qtype == 1 || q.qtype == 28) && zone.records.aname@.len() > 0 {
        let (ans, pend) = spec_aname_fold(
            zone.records.aname@,
            q,
            qname_str,
            resolver,
            config,
            tbl,
            sub,
        );
        OutcomeV { answer: ans, authority: Seq::empty(), additional: Seq::empty(), pending: pend }
    } else if q.qtype == 1 {
        OutcomeV {
            answer: spec_a_answers(zone.records.a@, q),
            authority: Seq::empty(),
            additional: Seq::empty(),
            pending: Seq::empty(),
        }
    } else if q.qtype == 28 {
        OutcomeV {
            answer: spec_aaaa_answers(zone.records.aaaa@, q),
            authority: Seq::empty(),
            additional: Seq::empty(),
            pending: Seq::empty(),
        }
    } else if q.qtype == 2 {
        let (auth, add, pend) = spec_ns_fold(zone.records.ns@, q, resolver, config, tbl, sub);
        OutcomeV { answer: Seq::empty(), authority: auth, additional: add, pending: pend }
    } else if q.qtype == 15 {
        OutcomeV {
            answer: spec_mx_answers(zone.records.mx@, q),
            authority: Seq::empty(),
            additional: Seq::empty(),
            pending: Seq::empty(),
        }
    } else {
        spec_empty_outcome()
    };
    if base.answer.len() == 0 && base.authority.len() == 0 && q.qtype != 2 {
        let (rans, rauth, rpend) = spec_rns_fold(zone.records.rns@, q, resolver, config, tbl, sub);
        OutcomeV {
            answer: base.answer + rans,
            authority: base.authority + rauth,
            additional: base.additional,
            pending: base.pending + rpend,
        }
    } else {
        base
    }
}

/// CNAME records: each contributes the CNAME itself, then the answers
/// found by following the rewritten target, internally first and
/// through the configured resolver otherwise.
pub open spec fn spec_cname_fold(
    recs: Seq<crate::config::CnameRecord>,
    q: QuestionV,
    qname_str: Seq<char>,
    resolver: EndpointV,
    config: Config,
    tbl: Seq<UpstreamEntryV>,
    sub: nat,
) -> (Seq<ResourceV>, Seq<LookupV>)
    decreases sub, 1nat, recs.len(), 0nat,
{
    if recs.len() == 0 {
        (Seq::empty(), Seq::empty())
    } else {
        let rec = recs[0];
        let new_labels = spec_split_dots(spec_rewrite_xname(rec.name@, qname_str));
        let cname_res = ResourceV {
            rname: q.qname,
            rtype: 5,
            rclass: q.qclass,
            ttl: spec_clip_ttl(rec.ttl),
            rdata: spec_name_bytes(new_labels),
        };
        let sub_q = QuestionV { qname: new_labels, qtype: q.qtype, qclass: 1 };
        let sub_out = spec_handle_dns(sub_q, resolver, config, tbl, sub);
        let (this_ans, this_pend): (Seq<ResourceV>, Seq<LookupV>) = if sub_out.answer.len() > 0 {
            (seq![cname_res] + sub_out.answer, sub_out.pending)
        } else {
            match spec_lookup_upstream(tbl, resolver, sub_q) {
                Some(ResponseV::Records(a, h, d)) => (seq![cname_res] + a, sub_out.pending),
                Some(_) => (seq![cname_res], sub_out.pending),
                None => (
                    seq![cname_res],
                    sub_out.pending + seq![LookupV { server: resolver, question: sub_q }],
                ),
            }
        };
        let (rest_ans, rest_pend) = spec_cname_fold(
            recs.drop_first(),
            q,
            qname_str,
            resolver,
            config,
            tbl,
            sub,
        );
        (this_ans + rest_ans, this_pend + rest_pend)
    }
}

/// ANAME records: the target is followed like a CNAME, but the found
/// answers are returned under the original query name.
pub open spec fn spec_aname_fold(
    recs: Seq<crate::config::AnameRecord>,
    q: QuestionV,
    qname_str: Seq<char>,
    resolver: EndpointV,
    config: Config,
    tbl: Seq<UpstreamEntryV>,
    sub: nat,
) -> (Seq<ResourceV>, Seq<LookupV>)
    decreases sub, 1nat, recs.len(), 0nat,
{
    if recs.len() == 0 {
        (Seq::empty(), Seq::empty())
    } else {
        let rec = recs[0];
        let new_labels = spec_split_dots(spec_rewrite_xname(rec.name@, qname_str));
        let sub_q = QuestionV { qname: new_labels, qtype: q.qtype, qclass: 1 };
        let sub_out = spec_handle_dns(sub_q, resolver, config, tbl, sub);
        let (found, this_pend): (Seq<ResourceV>, Seq<LookupV>) = if sub_out.answer.len() > 0 {
            (sub_out.answer, sub_out.pending)
        } else {
            match spec_lookup_upstream(tbl, resolver, sub_q) {
                Some(ResponseV::Records(a, h, d)) => (a, sub_out.pending),
                Some(_) => (Seq::empty(), sub_out.pending),
                None => (
                    Seq::empty(),
                    sub_out.pending + seq![LookupV { server: resolver, question: sub_q }],
                ),
            }
        };
        let renamed = found.map_values(
            |r: ResourceV|
                ResourceV {
                    rname: spec_split_dots(qname_str),
                    rtype: r.rtype,
                    rclass: r.rclass,
                    ttl: r.ttl,
                    rdata: r.rdata,
                },
        );
        let (rest_ans, rest_pend) = spec_aname_fold(
            recs.drop_first(),
            q,
            qname_str,
            resolver,
            config,
            tbl,
            sub,
        );
        (renamed + rest_ans, this_pend + rest_pend)
    }
}

/// One answer per A record, under the query name.
pub open spec fn spec_a_answers(recs: Seq<crate::config::ARecord>, q: QuestionV) -> Seq<
    ResourceV,
> {
    recs.map_values(
        |rec: crate::config::ARecord|
            ResourceV {
                rname: q.qname,
                rtype: q.qtype,
                rclass: q.qclass,
                ttl: spec_clip_ttl(rec.ttl),
                rdata: rec.ip4addr@,
            },
    )
}

/// One answer per AAAA record, under the query name.
pub open spec fn spec_aaaa_answers(recs: Seq<crate::config::AaaaRecord>, q: QuestionV) -> Seq<
    ResourceV,
> {
    recs.map_values(
        |rec: crate::config::AaaaRecord|
            ResourceV {
                rname: q.qname,
                rtype: q.qtype,
                rclass: q.qclass,
                ttl: spec_clip_ttl(rec.ttl),
                rdata: rec.ip6addr@,
            },
    )
}

/// One answer per MX record: two preference bytes, then the exchange
/// host as a wire name.
pub open spec fn spec_mx_answers(recs: Seq<crate::config::MxRecord>, q: QuestionV) -> Seq<
    ResourceV,
> {
    recs.map_values(
        |rec: crate::config::MxRecord|
            ResourceV {
                rname: q.qname,
                rtype: q.qtype,
                rclass: q.qclass,
                ttl: spec_clip_ttl(rec.ttl),
                rdata: seq![(rec.priority / 256) as u8, (rec.priority % 256) as u8]
                    + spec_name_bytes(spec_split_dots(rec.host@)),
            },
    )
}

/// NS records go to the authority section; the engine also resolves
/// each name server's A and AAAA records internally for the additional
/// section.
pub open spec fn spec_ns_fold(
    recs: Seq<crate::config::NsRecord>,
    q: QuestionV,
    resolver: EndpointV,
    config: Config,
    tbl: Seq<UpstreamEntryV>,
    sub: nat,
) -> (Seq<ResourceV>, Seq<ResourceV>, Seq<LookupV>)
    decreases sub, 1nat, recs.len(), 0nat,
{
    if recs.len() == 0 {
        (Seq::empty(), Seq::empty(), Seq::empty())
    } else {
        let rec = recs[0];
        let labels = spec_split_dots(rec.name@);
        let auth = ResourceV {
            rname: q.qname,
            rtype: q.qtype,
            rclass: q.qclass,
            ttl: spec_clip_ttl(rec.ttl),
            rdata: spec_name_bytes(labels),
        };
        let a_out = spec_handle_dns(
            QuestionV { qname: labels, qtype: 1, qclass: 1 },
            resolver,
            config,
            tbl,
            sub,
        );
        let aaaa_out = spec_handle_dns(
            QuestionV { qname: labels, qtype: 28, qclass: 1 },
            resolver,
            config,
            tbl,
            sub,
        );
        let (rest_auth, rest_add, rest_pend) = spec_ns_fold(
            recs.drop_first(),
            q,
            resolver,
            config,
            tbl,
            sub,
        );
        (
            seq![auth] + rest_auth,
            a_out.answer + aaaa_out.answer + rest_add,
            a_out.pending + aaaa_out.pending + rest_pend,
        )
    }
}

/// One delegation attempt for a host name and query type: the host is
/// resolved to an address internally (unless marked external) with the
/// configured resolver as fallback.
pub open spec fn spec_rns_addr(
    host: Seq<char>,
    port: u16,
    external: bool,
    qt: u16,
    resolver: EndpointV,
    config: Config,
    tbl: Seq<UpstreamEntryV>,
    sub: nat,
) -> (Option<EndpointV>, Seq<LookupV>)
    decreases sub, 1nat, 0nat, 1nat,
{
    let ns_q = QuestionV { qname: spec_split_dots(host), qtype: qt, qclass: 1 };
    if external {
        match spec_lookup_upstream(tbl, resolver, ns_q) {
            Some(ResponseV::Records(a, h, d)) => (spec_addr_from_answers(a, port), Seq::empty()),
            Some(_) => (None, Seq::empty()),
            None => (None, seq![LookupV { server: resolver, question: ns_q }]),
        }
    } else {
        let sub_out = spec_handle_dns(ns_q, resolver, config, tbl, sub);
        if sub_out.answer.len() > 0 {
            (spec_addr_from_answers(sub_out.answer, port), sub_out.pending)
        } else {
            match spec_lookup_upstream(tbl, resolver, ns_q) {
                Some(ResponseV::Records(a, h, d)) => (
                    spec_addr_from_answers(a, port),
                    sub_out.pending,
                ),
                Some(_) => (None, sub_out.pending),
                None => (
                    None,
                    sub_out.pending + seq![LookupV { server: resolver, question: ns_q }],
                ),
            }
        }
    }
}

/// Sends the original question to a resolved delegation endpoint.
pub open spec fn spec_rns_ask(
    addr: Option<EndpointV>,
    q: QuestionV,
    tbl: Seq<UpstreamEntryV>,
) -> (Seq<ResourceV>, Seq<ResourceV>, Seq<LookupV>) {
    match addr {
        None => (Seq::empty(), Seq::empty(), Seq::empty()),
        Some(ep) => match spec_lookup_upstream(tbl, ep, q) {
            Some(ResponseV::Records(a, h, d)) => (a, h, Seq::empty()),
            Some(_) => (Seq::empty(), Seq::empty(), Seq::empty()),
            None => (Seq::empty(), Seq::empty(), seq![LookupV { server: ep, question: q }]),
        },
    }
}

/// One RNS record: a resolved endpoint is asked directly; a host-port
/// pair is resolved over IPv6 first, then IPv4 if nothing came back.
pub open spec fn spec_rns_one(
    rec: crate::config::RnsRecord,
    q: QuestionV,
    resolver: EndpointV,
    config: Config,
    tbl: Seq<UpstreamEntryV>,
    sub: nat,
) -> (Seq<ResourceV>, Seq<ResourceV>, Seq<LookupV>)
    decreases sub, 1nat, 1nat, 0nat,
{
    match rec.host {
        RnsHost::SocketAddr(ep) => spec_rns_ask(Some(ep.deep_view()), q, tbl),
        RnsHost::HostPort(host, port) => {
            let (addr6, pend6) = spec_rns_addr(
                host@,
                port,
                rec.external,
                28,
                resolver,
                config,
                tbl,
                sub,
            );
            let (a6, h6, p6) = spec_rns_ask(addr6, q, tbl);
            if a6.len() > 0 || h6.len() > 0 {
                (a6, h6, pend6 + p6)
            } else {
                let (addr4, pend4) = spec_rns_addr(
                    host@,
                    port,
                    rec.external,
                    1,
                    resolver,
                    config,
                    tbl,
                    sub,
                );
                let (a4, h4, p4) = spec_rns_ask(addr4, q, tbl);
                (a4, h4, pend6 + p6 + pend4 + p4)
            }
        },
    }
}

/// RNS records are consulted in order until one returns records.
pub open spec fn spec_rns_fold(
    recs: Seq<crate::config::RnsRecord>,
    q: QuestionV,
    resolver: EndpointV,
    config: Config,
    tbl: Seq<UpstreamEntryV>,
    sub: nat,
) -> (Seq<ResourceV>, Seq<ResourceV>, Seq<LookupV>)
    decreases sub, 1nat, recs.len(), 2nat,
{
    if recs.len() == 0 {
        (Seq::empty(), Seq::empty(), Seq::empty())
    } else {
        let (ans, auth, pend) = spec_rns_one(recs[0], q, resolver, config, tbl, sub);
        if ans.len() > 0 || auth.len() > 0 {
            (ans, auth, pend)
        } else {
            let (rans, rauth, rpend) = spec_rns_fold(
                recs.drop_first(),
                q,
                resolver,
                config,
                tbl,
                sub,
            );
            (rans, rauth, pend + rpend)
        }
    }
}

// ---------------------------------------------------------------------
// The resolution engine.
// ---------------------------------------------------------------------

fn clip_ttl(t: u64) -> (r: u32)
    ensures
        r == spec_clip_ttl(t),
{
    (t % 0x100000000) as u32
}

fn append_resources(dst: &mut Vec<Resource>, src: Vec<Resource>)
    ensures
        final(dst).deep_view() == old(dst).deep_view() + src.deep_view(),
{
    let mut src = src;
    let ghost srcv = src.deep_view();
    dst.append(&mut src);
    proof {
        assert(dst.deep_view() =~~= old(dst).deep_view() + srcv);
    }
}

fn append_lookups(dst: &mut Vec<Lookup>, src: Vec<Lookup>)
    ensures
        final(dst).deep_view() == old(dst).deep_view() + src.deep_view(),
{
    let mut src = src;
    let ghost srcv = src.deep_view();
    dst.append(&mut src);
    proof {
        assert(dst.deep_view() =~~= old(dst).deep_view() + srcv);
    }
}

fn bytes_eq(a: &[u8], b: &[u8]) -> (r: bool)
    ensures
        r == (a@ == b@),
{
    if a.len() != b.len() {
        return false;
    }
    let mut i: usize = 0;
    while i < a.len()
        invariant
            i <= a@.len(),
            a@.len() == b@.len(),
            forall|j: int| 0 <= j < i ==> a@[j] == b@[j],
        decreases a@.len() - i,
    {
        if a[i] != b[i] {
            return false;
        }
        i += 1;
    }
    proof {
        assert(a@ =~= b@);
    }
    true
}

fn endpoint_eq(a: &Endpoint, b: &Endpoint) -> (r: bool)
    ensures
        r == (a.deep_view() == b.deep_view()),
{
    if a.port != b.port {
        return false;
    }
    match (&a.ip, &b.ip) {
        (IpRepr::V4(x), IpRepr::V4(y)) => bytes_eq(x.as_slice(), y.as_slice()),
        (IpRepr::V6(x), IpRepr::V6(y)) => bytes_eq(x.as_slice(), y.as_slice()),
        _ => false,
    }
}

fn names_equal(a: &Vec<String>, b: &Vec<String>) -> (r: bool)
    ensures
        r == (a.deep_view() == b.deep_view()),
{
    if a.len() != b.len() {
        proof {
            assert(a.deep_view().len() == a@.len());
            assert(b.deep_view().len() == b@.len());
        }
        return false;
    }
    let mut i: usize = 0;
    while i < a.len()
        invariant
            i <= a@.len(),
            a@.len() == b@.len(),
            a.deep_view().len() == a@.len(),
            b.deep_view().len() == b@.len(),
            forall|j: int| 0 <= j < i ==> a.deep_view()[j] == b.deep_view()[j],
        decreases a@.len() - i,
    {
        if !(a[i] == b[i]) {
            proof {
                assert(a.deep_view()[i as int] == a@[i as int]@);
                assert(b.deep_view()[i as int] == b@[i as int]@);
            }
            return false;
        }
        i += 1;
        proof {
            assert(a.deep_view()[i - 1] == a@[i - 1]@);
            assert(b.deep_view()[i - 1] == b@[i - 1]@);
        }
    }
    proof {
        assert(a.deep_view() =~= b.deep_view());
    }
    true
}

pub fn question_eq(a: &Question, b: &Question) -> (r: bool)
    ensures
        r == (a.deep_view() == b.deep_view()),
{
    if a.qtype != b.qtype || a.qclass != b.qclass {
        return false;
    }
    names_equal(&a.qname, &b.qname)
}

fn lookup_upstream<'a>(tbl: &'a UpstreamTable, server: &Endpoint, q: &Question) -> (r: Option<
    &'a Response,
>)
    ensures
        match r {
            Some(resp) => spec_lookup_upstream(
                tbl.deep_view(),
                server.deep_view(),
                q.deep_view(),
            ) == Some(resp.deep_view()),
            None => spec_lookup_upstream(
                tbl.deep_view(),
                server.deep_view(),
                q.deep_view(),
            ) is None,
        },
{
    let ghost tv = tbl.deep_view();
    let mut i: usize = 0;
    proof {
        assert(tv.skip(0) =~= tv);
    }
    while i < tbl.entries.len()
        invariant
            tv == tbl.deep_view(),
            tv.len() == tbl.entries@.len(),
            i <= tbl.entries@.len(),
            spec_lookup_upstream(tv, server.deep_view(), q.deep_view())
                == spec_lookup_upstream(tv.skip(i as int), server.deep_view(), q.deep_view()),
        decreases tbl.entries@.len() - i,
    {
        proof {
            assert(tv.skip(i as int)[0] == tv[i as int]);
            assert(tv.skip(i as int).drop_first() =~= tv.skip(i as int + 1));
        }
        let e = &tbl.entries[i];
        if endpoint_eq(&e.server, server) && question_eq(&e.question, q) {
            return Some(&e.response);
        }
        i += 1;
    }
    proof {
        assert(tv.skip(tv.len() as int) =~= Seq::<UpstreamEntryV>::empty());
    }
    None
}

fn addr_from_answers(ans: &Vec<Resource>, port: u16) -> (r: Option<Endpoint>)
    ensures
        match r {
            Some(ep) => spec_addr_from_answers(ans.deep_view(), port) == Some(ep.deep_view()),
            None => spec_addr_from_answers(ans.deep_view(), port) is None,
        },
{
    let ghost av = ans.deep_view();
    let mut i: usize = 0;
    proof {
        assert(av.skip(0) =~= av);
    }
    while i < ans.len()
        invariant
            av == ans.deep_view(),
            av.len() == ans@.len(),
            i <= ans@.len(),
            spec_addr_from_answers(av, port) == spec_addr_from_answers(av.skip(i as int), port),
        decreases ans@.len() - i,
    {
        proof {
            assert(av.skip(i as int)[0] == av[i as int]);
            assert(av.skip(i as int).drop_first() =~= av.skip(i as int + 1));
        }
        let rec = &ans[i];
        if rec.rtype == 1 && rec.rdata.len() >= 4 {
            let ep = Endpoint {
                ip: IpRepr::V4([rec.rdata[0], rec.rdata[1], rec.rdata[2], rec.rdata[3]]),
                port,
            };
            proof {
                assert(ep.deep_view().ip->V4_0 =~= av[i as int].rdata.take(4));
            }
            return Some(ep);
        }
        if rec.rtype == 28 && rec.rdata.len() >= 16 {
            let ep = Endpoint {
                ip: IpRepr::V6(
                    [
                        rec.rdata[0],
                        rec.rdata[1],
                        rec.rdata[2],
                        rec.rdata[3],
                        rec.rdata[4],
                        rec.rdata[5],
                        rec.rdata[6],
                        rec.rdata[7],
                        rec.rdata[8],
                        rec.rdata[9],
                        rec.rdata[10],
                        rec.rdata[11],
                        rec.rdata[12],
                        rec.rdata[13],
                        rec.rdata[14],
                        rec.rdata[15],
                    ],
                ),
                port,
            };
            proof {
                assert(ep.deep_view().ip->V6_0 =~= av[i as int].rdata.take(16));
            }
            return Some(ep);
        }
        i += 1;
    }
    proof {
        assert(av.skip(av.len() as int) =~= Seq::<ResourceV>::empty());
    }
    None
}

fn a_answers(recs: &Vec<crate::config::ARecord>, question: &Question) -> (out: Vec<Resource>)
    ensures
        out.deep_view() == spec_a_answers(recs@, question.deep_view()),
{
    let mut out: Vec<Resource> = Vec::new();
    let mut i: usize = 0;
    proof {
        assert(out.deep_view() =~~= spec_a_answers(recs@.take(0), question.deep_view()));
    }
    while i < recs.len()
        invariant
            i <= recs@.len(),
            out.deep_view() == spec_a_answers(recs@.take(i as int), question.deep_view()),
        decreases recs@.len() - i,
    {
        proof {
            assert(out.deep_view().len() == i as int);
        }
        let rec = &recs[i];
        let rd = vstd::slice::slice_to_vec(rec.ip4addr.as_slice());
        let ghost expect = ResourceV {
            rname: question.deep_view().qname,
            rtype: question.qtype,
            rclass: question.qclass,
            ttl: spec_clip_ttl(recs@[i as int].ttl),
            rdata: recs@[i as int].ip4addr@,
        };
        let ghost prev = out.deep_view();
        out.push(
            Resource {
                rname: crate::protocol::clone_name(&question.qname),
                rtype: question.qtype,
                rclass: question.qclass,
                ttl: clip_ttl(rec.ttl),
                rdata: rd,
            },
        );
        proof {
            assert(out.deep_view().last() =~~= expect);
            assert(out.deep_view() =~~= prev.push(expect));
            assert(spec_a_answers(recs@.take(i as int), question.deep_view()).push(expect)
                =~~= spec_a_answers(recs@.take(i as int + 1), question.deep_view()));
        }
        i += 1;
        proof {
            assert(out.deep_view() =~~= spec_a_answers(recs@.take(i as int), question.deep_view()));
        }
    }
    proof {
        assert(recs@.take(recs@.len() as int) =~= recs@);
    }
    out
}

fn aaaa_answers(recs: &Vec<crate::config::AaaaRecord>, question: &Question) -> (out: Vec<
    Resource,
>)
    ensures
        out.deep_view() == spec_aaaa_answers(recs@, question.deep_view()),
{
    let mut out: Vec<Resource> = Vec::new();
    let mut i: usize = 0;
    proof {
        assert(out.deep_view() =~~= spec_aaaa_answers(recs@.take(0), question.deep_view()));
    }
    while i < recs.len()
        invariant
            i <= recs@.len(),
            out.deep_view() == spec_aaaa_answers(recs@.take(i as int), question.deep_view()),
        decreases recs@.len() - i,
    {
        proof {
            assert(out.deep_view().len() == i as int);
        }
        let rec = &recs[i];
        let rd = vstd::slice::slice_to_vec(rec.ip6addr.as_slice());
        let ghost expect = ResourceV {
            rname: question.deep_view().qname,
            rtype: question.qtype,
            rclass: question.qclass,
            ttl: spec_clip_ttl(recs@[i as int].ttl),
            rdata: recs@[i as int].ip6addr@,
        };
        let ghost prev = out.deep_view();
        out.push(
            Resource {
                rname: crate::protocol::clone_name(&question.qname),
                rtype: question.qtype,
                rclass: question.qclass,
                ttl: clip_ttl(rec.ttl),
                rdata: rd,
            },
        );
        proof {
            assert(out.deep_view().last() =~~= expect);
            assert(out.deep_view() =~~= prev.push(expect));
            assert(spec_aaaa_answers(recs@.take(i as int), question.deep_view()).push(expect)
                =~~= spec_aaaa_answers(recs@.take(i as int + 1), question.deep_view()));
        }
        i += 1;
        proof {
            assert(out.deep_view() =~~= spec_aaaa_answers(
                recs@.take(i as int),
                question.deep_view(),
            ));
        }
    }
    proof {
        assert(recs@.take(recs@.len() as int) =~= recs@);
    }
    out
}

fn mx_answers(recs: &Vec<crate::config::MxRecord>, question: &Question) -> (out: Vec<Resource>)
    ensures
        out.deep_view() == spec_mx_answers(recs@, question.deep_view()),
{
    let mut out: Vec<Resource> = Vec::new();
    let mut i: usize = 0;
    proof {
        assert(out.deep_view() =~~= spec_mx_answers(recs@.take(0), question.deep_view()));
    }
    while i < recs.len()
        invariant
            i <= recs@.len(),
            out.deep_view() == spec_mx_answers(recs@.take(i as int), question.deep_view()),
        decreases recs@.len() - i,
    {
        proof {
            assert(out.deep_view().len() == i as int);
        }
        let rec = &recs[i];
        let mut rd: Vec<u8> = Vec::new();
        rd.push((rec.priority / 256) as u8);
        rd.push((rec.priority % 256) as u8);
        let host_labels = split_dots(rec.host.as_str());
        let mut tail = crate::protocol::serialize_name(&host_labels);
        rd.append(&mut tail);
        proof {
            assert(rd@ =~= seq![(rec.priority / 256) as u8, (rec.priority % 256) as u8]
                + spec_name_bytes(spec_split_dots(recs@[i as int].host@)));
        }
        let ghost expect = ResourceV {
            rname: question.deep_view().qname,
            rtype: question.qtype,
            rclass: question.qclass,
            ttl: spec_clip_ttl(recs@[i as int].ttl),
            rdata: seq![
                (recs@[i as int].priority / 256) as u8,
                (recs@[i as int].priority % 256) as u8,
            ] + spec_name_bytes(spec_split_dots(recs@[i as int].host@)),
        };
        let ghost prev = out.deep_view();
        out.push(
            Resource {
                rname: crate::protocol::clone_name(&question.qname),
                rtype: question.qtype,
                rclass: question.qclass,
                ttl: clip_ttl(rec.ttl),
                rdata: rd,
            },
        );
        proof {
            assert(out.deep_view().last() =~~= expect);
            assert(out.deep_view() =~~= prev.push(expect));
            assert(spec_mx_answers(recs@.take(i as int), question.deep_view()).push(expect)
                =~~= spec_mx_answers(recs@.take(i as int + 1), question.deep_view()));
        }
        i += 1;
        proof {
            assert(out.deep_view() =~~= spec_mx_answers(
                recs@.take(i as int),
                question.deep_view(),
            ));
        }
    }
    proof {
        assert(recs@.take(recs@.len() as int) =~= recs@);
    }
    out
}

fn rename_resources(found: &Vec<Resource>, qsplit: &Vec<String>) -> (out: Vec<Resource>)
    ensures
        out.deep_view() == found.deep_view().map_values(
            |r: ResourceV|
                ResourceV {
                    rname: qsplit.deep_view(),
                    rtype: r.rtype,
                    rclass: r.rclass,
                    ttl: r.ttl,
                    rdata: r.rdata,
                },
        ),
{
    let ghost fv = found.deep_view();
    let mut out: Vec<Resource> = Vec::new();
    let mut i: usize = 0;
    proof {
        assert(out.deep_view() =~~= fv.take(0).map_values(
            |r: ResourceV|
                ResourceV {
                    rname: qsplit.deep_view(),
                    rtype: r.rtype,
                    rclass: r.rclass,
                    ttl: r.ttl,
                    rdata: r.rdata,
                },
        ));
    }
    while i < found.len()
        invariant
            fv == found.deep_view(),
            fv.len() == found@.len(),
            i <= found@.len(),
            out.deep_view() == fv.take(i as int).map_values(
                |r: ResourceV|
                    ResourceV {
                        rname: qsplit.deep_view(),
                        rtype: r.rtype,
                        rclass: r.rclass,
                        ttl: r.ttl,
                        rdata: r.rdata,
                    },
            ),
        decreases found@.len() - i,
    {
        proof {
            assert(out.deep_view().len() == i as int);
        }
        let f = &found[i];
        let ghost expect = ResourceV {
            rname: qsplit.deep_view(),
            rtype: fv[i as int].rtype,
            rclass: fv[i as int].rclass,
            ttl: fv[i as int].ttl,
            rdata: fv[i as int].rdata,
        };
        let ghost prev = out.deep_view();
        out.push(
            Resource {
                rname: crate::protocol::clone_name(qsplit),
                rtype: f.rtype,
                rclass: f.rclass,
                ttl: f.ttl,
                rdata: crate::protocol::clone_bytes(&f.rdata),
            },
        );
        proof {
            assert(f.deep_view() == fv[i as int]);
            assert(out.deep_view().last() =~~= expect);
            assert(out.deep_view() =~~= prev.push(expect));
            assert(fv.take(i as int).map_values(
                |r: ResourceV|
                    ResourceV {
                        rname: qsplit.deep_view(),
                        rtype: r.rtype,
                        rclass: r.rclass,
                        ttl: r.ttl,
                        rdata: r.rdata,
                    },
            ).push(expect) =~~= fv.take(i as int + 1).map_values(
                |r: ResourceV|
                    ResourceV {
                        rname: qsplit.deep_view(),
                        rtype: r.rtype,
                        rclass: r.rclass,
                        ttl: r.ttl,
                        rdata: r.rdata,
                    },
            ));
        }
        i += 1;
        proof {
            assert(out.deep_view() =~~= fv.take(i as int).map_values(
                |r: ResourceV|
                    ResourceV {
                        rname: qsplit.deep_view(),
                        rtype: r.rtype,
                        rclass: r.rclass,
                        ttl: r.ttl,
                        rdata: r.rdata,
                    },
            ));
        }
    }
    proof {
        assert(fv.take(fv.len() as int) =~= fv);
    }
    out
}

fn cname_fold(
    recs: &Vec<crate::config::CnameRecord>,
    question: &Question,
    qname_str: &String,
    resolver: &Endpoint,
    config: &Config,
    upstream: &UpstreamTable,
    subfuel: u32,
) -> (r: (Vec<Resource>, Vec<Lookup>))
    requires
        spec_wf_config(*config),
    ensures
        ({
            let (sa, sp) = spec_cname_fold(
                recs@,
                question.deep_view(),
                qname_str@,
                resolver.deep_view(),
                *config,
                upstream.deep_view(),
                subfuel as nat,
            );
            r.0.deep_view() == sa && r.1.deep_view() == sp
        }),
    decreases subfuel, 3int,
{
    let ghost qv = question.deep_view();
    let ghost qsv = qname_str@;
    let ghost rv = resolver.deep_view();
    let ghost tv = upstream.deep_view();
    let ghost subn = subfuel as nat;
    let mut ans: Vec<Resource> = Vec::new();
    let mut pend: Vec<Lookup> = Vec::new();
    let mut i: usize = 0;
    proof {
        assert(recs@.skip(0) =~= recs@);
        let (sa, sp) = spec_cname_fold(recs@, qv, qsv, rv, *config, tv, subn);
        assert(ans.deep_view() + sa =~~= sa);
        assert(pend.deep_view() + sp =~~= sp);
    }
    while i < recs.len()
        invariant
            spec_wf_config(*config),
            qv == question.deep_view(),
            qsv == qname_str@,
            rv == resolver.deep_view(),
            tv == upstream.deep_view(),
            subn == subfuel as nat,
            i <= recs@.len(),
            ({
                let (sa, sp) = spec_cname_fold(recs@, qv, qsv, rv, *config, tv, subn);
                let (ra, rp) = spec_cname_fold(
                    recs@.skip(i as int),
                    qv,
                    qsv,
                    rv,
                    *config,
                    tv,
                    subn,
                );
                sa == ans.deep_view() + ra && sp == pend.deep_view() + rp
            }),
        decreases recs@.len() - i,
    {
        let ghost ans0 = ans.deep_view();
        let ghost pend0 = pend.deep_view();
        proof {
            assert(recs@.skip(i as int)[0] == recs@[i as int]);
            assert(recs@.skip(i as int).drop_first() =~= recs@.skip(i as int + 1));
        }
        let rec = &recs[i];
        let new_name = rewrite_xname(rec.name.as_str(), qname_str.as_str());
        let new_labels = split_dots(new_name.as_str());
        let rdata = crate::protocol::serialize_name(&new_labels);
        let cname_res = Resource {
            rname: crate::protocol::clone_name(&question.qname),
            rtype: 5,
            rclass: question.qclass,
            ttl: clip_ttl(rec.ttl),
            rdata,
        };
        let ghost new_labels_v = spec_split_dots(spec_rewrite_xname(recs@[i as int].name@, qsv));
        let ghost scn = ResourceV {
            rname: qv.qname,
            rtype: 5,
            rclass: qv.qclass,
            ttl: spec_clip_ttl(recs@[i as int].ttl),
            rdata: spec_name_bytes(new_labels_v),
        };
        proof {
            assert(new_labels.deep_view() == new_labels_v);
            assert(cname_res.deep_view() =~~= scn);
        }
        let sub_q = Question {
            qname: crate::protocol::clone_name(&new_labels),
            qtype: question.qtype,
            qclass: 1,
        };
        let ghost sqv = QuestionV { qname: new_labels_v, qtype: qv.qtype, qclass: 1 };
        proof {
            assert(sub_q.deep_view() =~~= sqv);
        }
        let sub_out = handle_dns(&sub_q, resolver, config, upstream, subfuel);
        let ghost sov = spec_handle_dns(sqv, rv, *config, tv, subn);
        proof {
            assert(sub_out.deep_view() == sov);
            assert(sub_out.answer.deep_view().len() == sub_out.answer@.len());
        }
        if sub_out.answer.len() > 0 {
            ans.push(cname_res);
            append_resources(&mut ans, sub_out.answer);
            append_lookups(&mut pend, sub_out.pending);
            proof {
                assert(ans.deep_view() =~~= ans0 + (seq![scn] + sov.answer));
                assert(pend.deep_view() =~~= pend0 + sov.pending);
            }
        } else {
            match lookup_upstream(upstream, resolver, &sub_q) {
                Some(resp) => {
                    ans.push(cname_res);
                    match resp {
                        Response::Records(a, _h, _d) => {
                            let ac = crate::protocol::clone_resources(a);
                            append_resources(&mut ans, ac);
                            proof {
                                assert(ans.deep_view() =~~= ans0 + (seq![scn]
                                    + resp.deep_view()->Records_0));
                            }
                        },
                        _ => {
                            proof {
                                assert(ans.deep_view() =~~= ans0 + seq![scn]);
                            }
                        },
                    }
                    append_lookups(&mut pend, sub_out.pending);
                    proof {
                        assert(pend.deep_view() =~~= pend0 + sov.pending);
                    }
                },
                None => {
                    ans.push(cname_res);
                    append_lookups(&mut pend, sub_out.pending);
                    let ghost pend1 = pend.deep_view();
                    pend.push(Lookup { server: *resolver, question: sub_q });
                    proof {
                        assert(ans.deep_view() =~~= ans0 + seq![scn]);
                        assert(pend.deep_view().last() =~~= LookupV {
                            server: rv,
                            question: sqv,
                        });
                        assert(pend.deep_view() =~~= pend1.push(
                            LookupV { server: rv, question: sqv },
                        ));
                        assert(pend.deep_view() =~~= pend0 + (sov.pending + seq![
                            LookupV { server: rv, question: sqv },
                        ]));
                    }
                },
            }
        }
        i += 1;
        proof {
            let (ra1, rp1) = spec_cname_fold(recs@.skip(i as int), qv, qsv, rv, *config, tv, subn);
            let (ra0, rp0) = spec_cname_fold(
                recs@.skip(i as int - 1),
                qv,
                qsv,
                rv,
                *config,
                tv,
                subn,
            );
            assert(ans.deep_view() + ra1 =~~= ans0 + ra0);
            assert(pend.deep_view() + rp1 =~~= pend0 + rp0);
        }
    }
    proof {
        assert(recs@.skip(recs@.len() as int) =~= Seq::<crate::config::CnameRecord>::empty());
        let (ra, rp) = spec_cname_fold(
            recs@.skip(recs@.len() as int),
            qv,
            qsv,
            rv,
            *config,
            tv,
            subn,
        );
        assert(ans.deep_view() + ra =~~= ans.deep_view());
        assert(pend.deep_view() + rp =~~= pend.deep_view());
    }
    (ans, pend)
}

fn aname_fold(
    recs: &Vec<crate::config::AnameRecord>,
    question: &Question,
    qname_str: &String,
    resolver: &Endpoint,
    config: &Config,
    upstream: &UpstreamTable,
    subfuel: u32,
) -> (r: (Vec<Resource>, Vec<Lookup>))
    requires
        spec_wf_config(*config),
    ensures
        ({
            let (sa, sp) = spec_aname_fold(
                recs@,
                question.deep_view(),
                qname_str@,
                resolver.deep_view(),
                *config,
                upstream.deep_view(),
                subfuel as nat,
            );
            r.0.deep_view() == sa && r.1.deep_view() == sp
        }),
    decreases subfuel, 3int,
{
    let ghost qv = question.deep_view();
    let ghost qsv = qname_str@;
    let ghost rv = resolver.deep_view();
    let ghost tv = upstream.deep_view();
    let ghost subn = subfuel as nat;
    let qsplit = split_dots(qname_str.as_str());
    proof {
        assert(qsplit.deep_view() == spec_split_dots(qsv));
    }
    let mut ans: Vec<Resource> = Vec::new();
    let mut pend: Vec<Lookup> = Vec::new();
    let mut i: usize = 0;
    proof {
        assert(recs@.skip(0) =~= recs@);
        let (sa, sp) = spec_aname_fold(recs@, qv, qsv, rv, *config, tv, subn);
        assert(ans.deep_view() + sa =~~= sa);
        assert(pend.deep_view() + sp =~~= sp);
    }
    while i < recs.len()
        invariant
            spec_wf_config(*config),
            qv == question.deep_view(),
            qsv == qname_str@,
            rv == resolver.deep_view(),
            tv == upstream.deep_view(),
            subn == subfuel as nat,
            qsplit.deep_view() == spec_split_dots(qsv),
            i <= recs@.len(),
            ({
                let (sa, sp) = spec_aname_fold(recs@, qv, qsv, rv, *config, tv, subn);
                let (ra, rp) = spec_aname_fold(
                    recs@.skip(i as int),
                    qv,
                    qsv,
                    rv,
                    *config,
                    tv,
                    subn,
                );
                sa == ans.deep_view() + ra && sp == pend.deep_view() + rp
            }),
        decreases recs@.len() - i,
    {
        let ghost ans0 = ans.deep_view();
        let ghost pend0 = pend.deep_view();
        proof {
            assert(recs@.skip(i as int)[0] == recs@[i as int]);
            assert(recs@.skip(i as int).drop_first() =~= recs@.skip(i as int + 1));
        }
        let rec = &recs[i];
        let new_name = rewrite_xname(rec.name.as_str(), qname_str.as_str());
        let new_labels = split_dots(new_name.as_str());
        let ghost new_labels_v = spec_split_dots(spec_rewrite_xname(recs@[i as int].name@, qsv));
        let sub_q = Question {
            qname: new_labels,
            qtype: question.qtype,
            qclass: 1,
        };
        let ghost sqv = QuestionV { qname: new_labels_v, qtype: qv.qtype, qclass: 1 };
        proof {
            assert(sub_q.deep_view() =~~= sqv);
        }
        let sub_out = handle_dns(&sub_q, resolver, config, upstream, subfuel);
        let ghost sov = spec_handle_dns(sqv, rv, *config, tv, subn);
        proof {
            assert(sub_out.deep_view() == sov);
            assert(sub_out.answer.deep_view().len() == sub_out.answer@.len());
        }
        let found: Vec<Resource>;
        if sub_out.answer.len() > 0 {
            found = sub_out.answer;
            append_lookups(&mut pend, sub_out.pending);
            proof {
                assert(found.deep_view() == sov.answer);
                assert(pend.deep_view() =~~= pend0 + sov.pending);
            }
        } else {
            match lookup_upstream(upstream, resolver, &sub_q) {
                Some(resp) => {
                    match resp {
                        Response::Records(a, _h, _d) => {
                            found = crate::protocol::clone_resources(a);
                        },
                        _ => {
                            found = Vec::new();
                            proof {
                                assert(found.deep_view() =~~= Seq::<ResourceV>::empty());
                            }
                        },
                    }
                    append_lookups(&mut pend, sub_out.pending);
                    proof {
                        assert(pend.deep_view() =~~= pend0 + sov.pending);
                    }
                },
                None => {
                    found = Vec::new();
                    append_lookups(&mut pend, sub_out.pending);
                    let ghost pend1 = pend.deep_view();
                    pend.push(Lookup { server: *resolver, question: sub_q });
                    proof {
                        assert(found.deep_view() =~~= Seq::<ResourceV>::empty());
                        assert(pend.deep_view().last() =~~= LookupV {
                            server: rv,
                            question: sqv,
                        });
                        assert(pend.deep_view() =~~= pend1.push(
                            LookupV { server: rv, question: sqv },
                        ));
                        assert(pend.deep_view() =~~= pend0 + (sov.pending + seq![
                            LookupV { server: rv, question: sqv },
                        ]));
                    }
                },
            }
        }
        let renamed = rename_resources(&found, &qsplit);
        append_resources(&mut ans, renamed);
        i += 1;
        proof {
            let (ra1, rp1) = spec_aname_fold(recs@.skip(i as int), qv, qsv, rv, *config, tv, subn);
            let (ra0, rp0) = spec_aname_fold(
                recs@.skip(i as int - 1),
                qv,
                qsv,
                rv,
                *config,
                tv,
                subn,
            );
            assert(ans.deep_view() + ra1 =~~= ans0 + ra0);
            assert(pend.deep_view() + rp1 =~~= pend0 + rp0);
        }
    }
    proof {
        assert(recs@.skip(recs@.len() as int) =~= Seq::<crate::config::AnameRecord>::empty());
        let (ra, rp) = spec_aname_fold(
            recs@.skip(recs@.len() as int),
            qv,
            qsv,
            rv,
            *config,
            tv,
            subn,
        );
        assert(ans.deep_view() + ra =~~= ans.deep_view());
        assert(pend.deep_view() + rp =~~= pend.deep_view());
    }
    (ans, pend)
}

fn ns_fold(
    recs: &Vec<crate::config::NsRecord>,
    question: &Question,
    resolver: &Endpoint,
    config: &Config,
    upstream: &UpstreamTable,
    subfuel: u32,
) -> (r: (Vec<Resource>, Vec<Resource>, Vec<Lookup>))
    requires
        spec_wf_config(*config),
    ensures
        ({
            let (sh, sd, sp) = spec_ns_fold(
                recs@,
                question.deep_view(),
                resolver.deep_view(),
                *config,
                upstream.deep_view(),
                subfuel as nat,
            );
            r.0.deep_view() == sh && r.1.deep_view() == sd && r.2.deep_view() == sp
        }),
    decreases subfuel, 3int,
{
    let ghost qv = question.deep_view();
    let ghost rv = resolver.deep_view();
    let ghost tv = upstream.deep_view();
    let ghost subn = subfuel as nat;
    let mut auth: Vec<Resource> = Vec::new();
    let mut add: Vec<Resource> = Vec::new();
    let mut pend: Vec<Lookup> = Vec::new();
    let mut i: usize = 0;
    proof {
        assert(recs@.skip(0) =~= recs@);
        let (sh, sd, sp) = spec_ns_fold(recs@, qv, rv, *config, tv, subn);
        assert(auth.deep_view() + sh =~~= sh);
        assert(add.deep_view() + sd =~~= sd);
        assert(pend.deep_view() + sp =~~= sp);
    }
    while i < recs.len()
        invariant
            spec_wf_config(*config),
            qv == question.deep_view(),
            rv == resolver.deep_view(),
            tv == upstream.deep_view(),
            subn == subfuel as nat,
            i <= recs@.len(),
            ({
                let (sh, sd, sp) = spec_ns_fold(recs@, qv, rv, *config, tv, subn);
                let (rh, rd, rp) = spec_ns_fold(recs@.skip(i as int), qv, rv, *config, tv, subn);
                sh == auth.deep_view() + rh && sd == add.deep_view() + rd && sp == pend.deep_view()
                    + rp
            }),
        decreases recs@.len() - i,
    {
        let ghost auth0 = auth.deep_view();
        let ghost add0 = add.deep_view();
        let ghost pend0 = pend.deep_view();
        proof {
            assert(recs@.skip(i as int)[0] == recs@[i as int]);
            assert(recs@.skip(i as int).drop_first() =~= recs@.skip(i as int + 1));
        }
        let rec = &recs[i];
        let labels = split_dots(rec.name.as_str());
        let ghost labels_v = spec_split_dots(recs@[i as int].name@);
        let rdata = crate::protocol::serialize_name(&labels);
        auth.push(
            Resource {
                rname: crate::protocol::clone_name(&question.qname),
                rtype: question.qtype,
                rclass: question.qclass,
                ttl: clip_ttl(rec.ttl),
                rdata,
            },
        );
        let a_q = Question {
            qname: crate::protocol::clone_name(&labels),
            qtype: 1,
            qclass: 1,
        };
        let aaaa_q = Question { qname: labels, qtype: 28, qclass: 1 };
        proof {
            assert(a_q.deep_view() =~~= QuestionV { qname: labels_v, qtype: 1, qclass: 1 });
            assert(aaaa_q.deep_view() =~~= QuestionV { qname: labels_v, qtype: 28, qclass: 1 });
        }
        let a_out = handle_dns(&a_q, resolver, config, upstream, subfuel);
        let aaaa_out = handle_dns(&aaaa_q, resolver, config, upstream, subfuel);
        let ghost sav = spec_handle_dns(
            QuestionV { qname: labels_v, qtype: 1, qclass: 1 },
            rv,
            *config,
            tv,
            subn,
        );
        let ghost saaaav = spec_handle_dns(
            QuestionV { qname: labels_v, qtype: 28, qclass: 1 },
            rv,
            *config,
            tv,
            subn,
        );
        append_resources(&mut add, a_out.answer);
        append_resources(&mut add, aaaa_out.answer);
        append_lookups(&mut pend, a_out.pending);
        append_lookups(&mut pend, aaaa_out.pending);
        i += 1;
        proof {
            let (rh1, rd1, rp1) = spec_ns_fold(recs@.skip(i as int), qv, rv, *config, tv, subn);
            let (rh0, rd0, rp0) = spec_ns_fold(
                recs@.skip(i as int - 1),
                qv,
                rv,
                *config,
                tv,
                subn,
            );
            assert(auth.deep_view() + rh1 =~~= auth0 + rh0);
            assert(add.deep_view() + rd1 =~~= add0 + rd0);
            assert(pend.deep_view() + rp1 =~~= pend0 + rp0);
        }
    }
    proof {
        assert(recs@.skip(recs@.len() as int) =~= Seq::<crate::config::NsRecord>::empty());
        let (rh, rd, rp) = spec_ns_fold(
            recs@.skip(recs@.len() as int),
            qv,
            rv,
            *config,
            tv,
            subn,
        );
        assert(auth.deep_view() + rh =~~= auth.deep_view());
        assert(add.deep_view() + rd =~~= add.deep_view());
        assert(pend.deep_view() + rp =~~= pend.deep_view());
    }
    (auth, add, pend)
}

fn rns_ask(addr: &Option<Endpoint>, question: &Question, upstream: &UpstreamTable) -> (r: (
    Vec<Resource>,
    Vec<Resource>,
    Vec<Lookup>,
))
    ensures
        ({
            let (sa, sh, sp) = spec_rns_ask(
                addr.deep_view(),
                question.deep_view(),
                upstream.deep_view(),
            );
            r.0.deep_view() == sa && r.1.deep_view() == sh && r.2.deep_view() == sp
        }),
{
    match addr {
        None => {
            let r = (Vec::<Resource>::new(), Vec::<Resource>::new(), Vec::<Lookup>::new());
            proof {
                assert(r.0.deep_view() =~~= Seq::<ResourceV>::empty());
                assert(r.1.deep_view() =~~= Seq::<ResourceV>::empty());
                assert(r.2.deep_view() =~~= Seq::<LookupV>::empty());
            }
            r
        },
        Some(ep) => {
            match lookup_upstream(upstream, ep, question) {
                Some(resp) => {
                    match resp {
                        Response::Records(a, h, _d) => {
                            let r = (
                                crate::protocol::clone_resources(a),
                                crate::protocol::clone_resources(h),
                                Vec::<Lookup>::new(),
                            );
                            proof {
                                assert(r.2.deep_view() =~~= Seq::<LookupV>::empty());
                            }
                            r
                        },
                        _ => {
                            let r = (
                                Vec::<Resource>::new(),
                                Vec::<Resource>::new(),
                                Vec::<Lookup>::new(),
                            );
                            proof {
                                assert(r.0.deep_view() =~~= Seq::<ResourceV>::empty());
                                assert(r.1.deep_view() =~~= Seq::<ResourceV>::empty());
                                assert(r.2.deep_view() =~~= Seq::<LookupV>::empty());
                            }
                            r
                        },
                    }
                },
                None => {
                    let mut pend: Vec<Lookup> = Vec::new();
                    pend.push(
                        Lookup {
                            server: *ep,
                            question: crate::protocol::clone_question(question),
                        },
                    );
                    let r = (Vec::<Resource>::new(), Vec::<Resource>::new(), pend);
                    proof {
                        assert(r.0.deep_view() =~~= Seq::<ResourceV>::empty());
                        assert(r.1.deep_view() =~~= Seq::<ResourceV>::empty());
                        assert(r.2.deep_view() =~~= seq![
                            LookupV { server: ep.deep_view(), question: question.deep_view() },
                        ]);
                    }
                    r
                },
            }
        },
    }
}

fn rns_addr(
    host: &String,
    port: u16,
    external: bool,
    qt: u16,
    resolver: &Endpoint,
    config: &Config,
    upstream: &UpstreamTable,
    subfuel: u32,
) -> (r: (Option<Endpoint>, Vec<Lookup>))
    requires
        spec_wf_config(*config),
    ensures
        ({
            let (sa, sp) = spec_rns_addr(
                host@,
                port,
                external,
                qt,
                resolver.deep_view(),
                *config,
                upstream.deep_view(),
                subfuel as nat,
            );
            (match r.0 {
                Some(ep) => sa == Some(ep.deep_view()),
                None => sa is None,
            }) && r.1.deep_view() == sp
        }),
    decreases subfuel, 1int,
{
    let ghost rv = resolver.deep_view();
    let ghost tv = upstream.deep_view();
    let ghost subn = subfuel as nat;
    let labels = split_dots(host.as_str());
    let ns_q = Question { qname: labels, qtype: qt, qclass: 1 };
    let ghost nsqv = QuestionV { qname: spec_split_dots(host@), qtype: qt, qclass: 1 };
    proof {
        assert(ns_q.deep_view() =~~= nsqv);
    }
    if external {
        match lookup_upstream(upstream, resolver, &ns_q) {
            Some(resp) => {
                match resp {
                    Response::Records(a, _h, _d) => {
                        let addr = addr_from_answers(a, port);
                        let r = (addr, Vec::<Lookup>::new());
                        proof {
                            assert(r.1.deep_view() =~~= Seq::<LookupV>::empty());
                        }
                        r
                    },
                    _ => {
                        let r = (None, Vec::<Lookup>::new());
                        proof {
                            assert(r.1.deep_view() =~~= Seq::<LookupV>::empty());
                        }
                        r
                    },
                }
            },
            None => {
                let mut pend: Vec<Lookup> = Vec::new();
                pend.push(Lookup { server: *resolver, question: ns_q });
                proof {
                    assert(pend.deep_view() =~~= seq![LookupV { server: rv, question: nsqv }]);
                }
                (None, pend)
            },
        }
    } else {
        let sub_out = handle_dns(&ns_q, resolver, config, upstream, subfuel);
        let ghost sov = spec_handle_dns(nsqv, rv, *config, tv, subn);
        proof {
            assert(sub_out.deep_view() == sov);
            assert(sub_out.answer.deep_view().len() == sub_out.answer@.len());
        }
        if sub_out.answer.len() > 0 {
            let addr = addr_from_answers(&sub_out.answer, port);
            (addr, sub_out.pending)
        } else {
            match lookup_upstream(upstream, resolver, &ns_q) {
                Some(resp) => {
                    match resp {
                        Response::Records(a, _h, _d) => {
                            let addr = addr_from_answers(a, port);
                            (addr, sub_out.pending)
                        },
                        _ => (None, sub_out.pending),
                    }
                },
                None => {
                    let mut pend = sub_out.pending;
                    let ghost pend0 = pend.deep_view();
                    pend.push(Lookup { server: *resolver, question: ns_q });
                    proof {
                        assert(pend.deep_view() =~~= pend0 + seq![
                            LookupV { server: rv, question: nsqv },
                        ]);
                    }
                    (None, pend)
                },
            }
        }
    }
}

fn rns_one(
    rec: &crate::config::RnsRecord,
    question: &Question,
    resolver: &Endpoint,
    config: &Config,
    upstream: &UpstreamTable,
    subfuel: u32,
) -> (r: (Vec<Resource>, Vec<Resource>, Vec<Lookup>))
    requires
        spec_wf_config(*config),
    ensures
        ({
            let (sa, sh, sp) = spec_rns_one(
                *rec,
                question.deep_view(),
                resolver.deep_view(),
                *config,
                upstream.deep_view(),
                subfuel as nat,
            );
            r.0.deep_view() == sa && r.1.deep_view() == sh && r.2.deep_view() == sp
        }),
    decreases subfuel, 2int,
{
    match &rec.host {
        RnsHost::SocketAddr(ep) => {
            let addr = Some(*ep);
            let r = rns_ask(&addr, question, upstream);
            r
        },
        RnsHost::HostPort(host, port) => {
            let (addr6, pend6) = rns_addr(
                host,
                *port,
                rec.external,
                28,
                resolver,
                config,
                upstream,
                subfuel,
            );
            let (a6, h6, p6) = rns_ask(&addr6, question, upstream);
            proof {
                assert(a6.deep_view().len() == a6@.len());
                assert(h6.deep_view().len() == h6@.len());
            }
            if a6.len() > 0 || h6.len() > 0 {
                let mut pend = pend6;
                append_lookups(&mut pend, p6);
                (a6, h6, pend)
            } else {
                let (addr4, pend4) = rns_addr(
                    host,
                    *port,
                    rec.external,
                    1,
                    resolver,
                    config,
                    upstream,
                    subfuel,
                );
                let (a4, h4, p4) = rns_ask(&addr4, question, upstream);
                let mut pend = pend6;
                append_lookups(&mut pend, p6);
                append_lookups(&mut pend, pend4);
                append_lookups(&mut pend, p4);
                proof {
                    let (sa, sh, sp) = spec_rns_one(
                        *rec,
                        question.deep_view(),
                        resolver.deep_view(),
                        *config,
                        upstream.deep_view(),
                        subfuel as nat,
                    );
                    assert(pend.deep_view() =~~= sp);
                }
                (a4, h4, pend)
            }
        },
    }
}

fn rns_fold(
    recs: &Vec<crate::config::RnsRecord>,
    question: &Question,
    resolver: &Endpoint,
    config: &Config,
    upstream: &UpstreamTable,
    subfuel: u32,
) -> (r: (Vec<Resource>, Vec<Resource>, Vec<Lookup>))
    requires
        spec_wf_config(*config),
    ensures
        ({
            let (sa, sh, sp) = spec_rns_fold(
                recs@,
                question.deep_view(),
                resolver.deep_view(),
                *config,
                upstream.deep_view(),
                subfuel as nat,
            );
            r.0.deep_view() == sa && r.1.deep_view() == sh && r.2.deep_view() == sp
        }),
    decreases subfuel, 3int,
{
    let ghost qv = question.deep_view();
    let ghost rv = resolver.deep_view();
    let ghost tv = upstream.deep_view();
    let ghost subn = subfuel as nat;
    let mut pend: Vec<Lookup> = Vec::new();
    let mut i: usize = 0;
    proof {
        assert(recs@.skip(0) =~= recs@);
        let (sa, sh, sp) = spec_rns_fold(recs@, qv, rv, *config, tv, subn);
        assert(pend.deep_view() + sp =~~= sp);
    }
    while i < recs.len()
        invariant
            spec_wf_config(*config),
            qv == question.deep_view(),
            rv == resolver.deep_view(),
            tv == upstream.deep_view(),
            subn == subfuel as nat,
            i <= recs@.len(),
            ({
                let (sa, sh, sp) = spec_rns_fold(recs@, qv, rv, *config, tv, subn);
                let (ra, rh, rp) = spec_rns_fold(recs@.skip(i as int), qv, rv, *config, tv, subn);
                sa == ra && sh == rh && sp == pend.deep_view() + rp
            }),
        decreases recs@.len() - i,
    {
        let ghost pend0 = pend.deep_view();
        proof {
            assert(recs@.skip(i as int)[0] == recs@[i as int]);
            assert(recs@.skip(i as int).drop_first() =~= recs@.skip(i as int + 1));
        }
        let (ans, auth, p) = rns_one(&recs[i], question, resolver, config, upstream, subfuel);
        proof {
            assert(ans.deep_view().len() == ans@.len());
            assert(auth.deep_view().len() == auth@.len());
        }
        if ans.len() > 0 || auth.len() > 0 {
            append_lookups(&mut pend, p);
            return (ans, auth, pend);
        }
        append_lookups(&mut pend, p);
        i += 1;
        proof {
            let (ra1, rh1, rp1) = spec_rns_fold(recs@.skip(i as int), qv, rv, *config, tv, subn);
            let (ra0, rh0, rp0) = spec_rns_fold(
                recs@.skip(i as int - 1),
                qv,
                rv,
                *config,
                tv,
                subn,
            );
            assert(pend.deep_view() + rp1 =~~= pend0 + rp0);
        }
    }
    proof {
        assert(recs@.skip(recs@.len() as int) =~= Seq::<crate::config::RnsRecord>::empty());
        let (ra, rh, rp) = spec_rns_fold(
            recs@.skip(recs@.len() as int),
            qv,
            rv,
            *config,
            tv,
            subn,
        );
        assert(pend.deep_view() + rp =~~= pend.deep_view());
    }
    let empty_ans = Vec::<Resource>::new();
    let empty_auth = Vec::<Resource>::new();
    proof {
        assert(empty_ans.deep_view() =~~= Seq::<ResourceV>::empty());
        assert(empty_auth.deep_view() =~~= Seq::<ResourceV>::empty());
    }
    (empty_ans, empty_auth, pend)
}

fn zone_outcome(
    zone: &Zone,
    question: &Question,
    resolver: &Endpoint,
    config: &Config,
    upstream: &UpstreamTable,
    subfuel: u32,
) -> (r: DnsOutcome)
    requires
        spec_wf_config(*config),
    ensures
        r.deep_view() == spec_zone_outcome(
            *zone,
            question.deep_view(),
            resolver.deep_view(),
            *config,
            upstream.deep_view(),
            subfuel as nat,
        ),
    decreases subfuel, 4int,
{
    let ghost qv = question.deep_view();
    let ghost rv = resolver.deep_view();
    let ghost tv = upstream.deep_view();
    let ghost subn = subfuel as nat;
    let qname_str = join_dots(&question.qname);
    proof {
        assert(qname_str@ == spec_join_dots(qv.qname));
    }
    let mut base: DnsOutcome;
    if zone.records.cname.len() > 0 && question.qtype != 5 {
        let (ans, pend) = cname_fold(
            &zone.records.cname,
            question,
            &qname_str,
            resolver,
            config,
            upstream,
            subfuel,
        );
        base = DnsOutcome {
            answer: ans,
            authority: Vec::new(),
            additional: Vec::new(),
            pending: pend,
        };
        proof {
            assert(base.deep_view().authority =~~= Seq::<ResourceV>::empty());
            assert(base.deep_view().additional =~~= Seq::<ResourceV>::empty());
        }
    } else if (question.qtype == 1 || question.qtype == 28) && zone.records.aname.len() > 0 {
        let (ans, pend) = aname_fold(
            &zone.records.aname,
            question,
            &qname_str,
            resolver,
            config,
            upstream,
            subfuel,
        );
        base = DnsOutcome {
            answer: ans,
            authority: Vec::new(),
            additional: Vec::new(),
            pending: pend,
        };
        proof {
            assert(base.deep_view().authority =~~= Seq::<ResourceV>::empty());
            assert(base.deep_view().additional =~~= Seq::<ResourceV>::empty());
        }
    } else if question.qtype == 1 {
        base = DnsOutcome {
            answer: a_answers(&zone.records.a, question),
            authority: Vec::new(),
            additional: Vec::new(),
            pending: Vec::new(),
        };
        proof {
            assert(base.deep_view().authority =~~= Seq::<ResourceV>::empty());
            assert(base.deep_view().additional =~~= Seq::<ResourceV>::empty());
            assert(base.deep_view().pending =~~= Seq::<LookupV>::empty());
        }
    } else if question.qtype == 28 {
        base = DnsOutcome {
            answer: aaaa_answers(&zone.records.aaaa, question),
            authority: Vec::new(),
            additional: Vec::new(),
            pending: Vec::new(),
        };
        proof {
            assert(base.deep_view().authority =~~= Seq::<ResourceV>::empty());
            assert(base.deep_view().additional =~~= Seq::<ResourceV>::empty());
            assert(base.deep_view().pending =~~= Seq::<LookupV>::empty());
        }
    } else if question.qtype == 2 {
        let (auth, add, pend) = ns_fold(
            &zone.records.ns,
            question,
            resolver,
            config,
            upstream,
            subfuel,
        );
        base = DnsOutcome { answer: Vec::new(), authority: auth, additional: add, pending: pend };
        proof {
            assert(base.deep_view().answer =~~= Seq::<ResourceV>::empty());
        }
    } else if question.qtype == 15 {
        base = DnsOutcome {
            answer: mx_answers(&zone.records.mx, question),
            authority: Vec::new(),
            additional: Vec::new(),
            pending: Vec::new(),
        };
        proof {
            assert(base.deep_view().authority =~~= Seq::<ResourceV>::empty());
            assert(base.deep_view().additional =~~= Seq::<ResourceV>::empty());
            assert(base.deep_view().pending =~~= Seq::<LookupV>::empty());
        }
    } else {
        base = DnsOutcome {
            answer: Vec::new(),
            authority: Vec::new(),
            additional: Vec::new(),
            pending: Vec::new(),
        };
        proof {
            assert(base.deep_view() =~~= spec_empty_outcome());
        }
    }
    let ghost basev = base.deep_view();
    proof {
        assert(base.answer.deep_view().len() == base.answer@.len());
        assert(base.authority.deep_view().len() == base.authority@.len());
    }
    if base.answer.len() == 0 && base.authority.len() == 0 && question.qtype != 2 {
        let (rans, rauth, rpend) = rns_fold(
            &zone.records.rns,
            question,
            resolver,
            config,
            upstream,
            subfuel,
        );
        append_resources(&mut base.answer, rans);
        append_resources(&mut base.authority, rauth);
        append_lookups(&mut base.pending, rpend);
        proof {
            assert(base.deep_view() =~~= spec_zone_outcome(*zone, qv, rv, *config, tv, subn));
        }
    } else {
        proof {
            assert(base.deep_view() =~~= spec_zone_outcome(*zone, qv, rv, *config, tv, subn));
        }
    }
    base
}

/// Resolves one question against the configured zones. The engine does
/// no I/O: every upstream exchange it needs is read from `upstream`,
/// and the missing ones are listed in the outcome's `pending`. `fuel`
/// bounds the depth of alias chasing.
pub fn handle_dns(
    question: &Question,
    resolver: &Endpoint,
    config: &Config,
    upstream: &UpstreamTable,
    fuel: u32,
) -> (r: DnsOutcome)
    requires
        spec_wf_config(*config),
    ensures
        r.deep_view() == spec_handle_dns(
            question.deep_view(),
            resolver.deep_view(),
            *config,
            upstream.deep_view(),
            fuel as nat,
        ),
    decreases fuel, 0int,
{
    let ghost qv = question.deep_view();
    let ghost rv = resolver.deep_view();
    let ghost tv = upstream.deep_view();
    if fuel == 0 {
        let r = DnsOutcome {
            answer: Vec::new(),
            authority: Vec::new(),
            additional: Vec::new(),
            pending: Vec::new(),
        };
        proof {
            assert(r.deep_view() =~~= spec_empty_outcome());
        }
        return r;
    }
    let subfuel = fuel - 1;
    let ghost subn = subfuel as nat;
    let mut additional: Vec<Resource> = Vec::new();
    let mut pending: Vec<Lookup> = Vec::new();
    let mut k: usize = 0;
    proof {
        assert(config.zones@.skip(0) =~= config.zones@);
        let rest = spec_scan_zones(config.zones@, qv, rv, *config, tv, subn);
        assert(additional.deep_view() + rest.additional =~~= rest.additional);
        assert(pending.deep_view() + rest.pending =~~= rest.pending);
    }
    while k < config.zones.len()
        invariant
            spec_wf_config(*config),
            qv == question.deep_view(),
            rv == resolver.deep_view(),
            tv == upstream.deep_view(),
            subn == subfuel as nat,
            subfuel as int == fuel as int - 1,
            k <= config.zones@.len(),
            ({
                let target = spec_scan_zones(config.zones@, qv, rv, *config, tv, subn);
                let rest = spec_scan_zones(
                    config.zones@.skip(k as int),
                    qv,
                    rv,
                    *config,
                    tv,
                    subn,
                );
                target.answer == rest.answer && target.authority == rest.authority
                    && target.additional == additional.deep_view() + rest.additional
                    && target.pending == pending.deep_view() + rest.pending
            }),
        decreases config.zones@.len() - k,
    {
        let ghost add0 = additional.deep_view();
        let ghost pend0 = pending.deep_view();
        proof {
            assert(config.zones@.skip(k as int)[0] == config.zones@[k as int]);
            assert(config.zones@.skip(k as int).drop_first() =~= config.zones@.skip(k as int + 1));
            assert(spec_no_eager_matchers(config.zones@[k as int].matchers@));
        }
        let zone = &config.zones[k];
        let msl = zone.matchers.as_slice();
        let qsl = question.qname.as_slice();
        proof {
            assert(msl@ == zone.matchers@);
            assert(qsl.deep_view() =~~= question.qname.deep_view());
        }
        let matched = does_match(msl, qsl);
        proof {
            assert(matched == spec_zone_matches(zone.matchers@, qv.qname));
        }
        if matched {
            let zr = zone_outcome(zone, question, resolver, config, upstream, subfuel);
            let ghost zrv = zr.deep_view();
            proof {
                assert(zr.answer.deep_view().len() == zr.answer@.len());
                assert(zr.authority.deep_view().len() == zr.authority@.len());
            }
            if zr.answer.len() > 0 || zr.authority.len() > 0 {
                append_resources(&mut additional, zr.additional);
                append_lookups(&mut pending, zr.pending);
                let r = DnsOutcome {
                    answer: zr.answer,
                    authority: zr.authority,
                    additional,
                    pending,
                };
                proof {
                    let rest = spec_scan_zones(
                        config.zones@.skip(k as int),
                        qv,
                        rv,
                        *config,
                        tv,
                        subn,
                    );
                    assert(rest =~~= zrv);
                    assert(r.deep_view() =~~= spec_handle_dns(qv, rv, *config, tv, fuel as nat));
                }
                return r;
            }
            append_resources(&mut additional, zr.additional);
            append_lookups(&mut pending, zr.pending);
        }
        k += 1;
        proof {
            let rest1 = spec_scan_zones(config.zones@.skip(k as int), qv, rv, *config, tv, subn);
            let rest0 = spec_scan_zones(
                config.zones@.skip(k as int - 1),
                qv,
                rv,
                *config,
                tv,
                subn,
            );
            assert(additional.deep_view() + rest1.additional =~~= add0 + rest0.additional);
            assert(pending.deep_view() + rest1.pending =~~= pend0 + rest0.pending);
        }
    }
    proof {
        assert(config.zones@.skip(config.zones@.len() as int) =~= Seq::<Zone>::empty());
        let rest = spec_scan_zones(
            config.zones@.skip(config.zones@.len() as int),
            qv,
            rv,
            *config,
            tv,
            subn,
        );
        assert(additional.deep_view() + rest.additional =~~= additional.deep_view());
        assert(pending.deep_view() + rest.pending =~~= pending.deep_view());
    }
    let r = DnsOutcome { answer: Vec::new(), authority: Vec::new(), additional, pending };
    proof {
        assert(r.answer.deep_view() =~~= Seq::<ResourceV>::empty());
        assert(r.authority.deep_view() =~~= Seq::<ResourceV>::empty());
        assert(r.deep_view() =~~= spec_handle_dns(qv, rv, *config, tv, fuel as nat));
    }
    r
}

// ---------------------------------------------------------------------
// Top-level request handling.
// ---------------------------------------------------------------------

/// What became of one raw request.
#[derive(Debug, Clone, PartialEq)]
pub enum RequestOutcome {
    /// The encoded response, ready for the wire.
    Reply(Vec<u8>),
    /// The request is dropped: malformed bytes, a message that is
    /// already a response (a possible reflection attempt), or not
    /// exactly one question.
    Dropped,
    /// Upstream lookups are missing; perform them, extend the table,
    /// and hand the same request in again.
    NeedsLookups(Vec<Lookup>),
}

#[verifier::ext_equal]
pub ghost enum RequestOutcomeV {
    Reply(Seq<u8>),
    Dropped,
    NeedsLookups(Seq<LookupV>),
}

impl DeepView for RequestOutcome {
    type V = RequestOutcomeV;

    open spec fn deep_view(&self) -> RequestOutcomeV {
        match self {
            RequestOutcome::Reply(b) => RequestOutcomeV::Reply(b.deep_view()),
            RequestOutcome::Dropped => RequestOutcomeV::Dropped,
            RequestOutcome::NeedsLookups(l) => RequestOutcomeV::NeedsLookups(l.deep_view()),
        }
    }
}

/// The response a message from an upstream server stands for: a
/// non-zero response code names the failure, anything else carries the
/// three sections.
pub open spec fn spec_response_of(m: crate::protocol::MessageV) -> ResponseV {
    if m.header.rcode == 1 {
        ResponseV::FormatError
    } else if m.header.rcode == 2 {
        ResponseV::ServerFailure
    } else if m.header.rcode == 3 {
        ResponseV::NameError
    } else if m.header.rcode == 4 {
        ResponseV::NotImplemented
    } else if m.header.rcode == 5 {
        ResponseV::Refused
    } else {
        ResponseV::Records(m.answer, m.authority, m.additional)
    }
}

/// Classifies an upstream reply by its response code.
pub fn response_of_message(m: Message) -> (r: Response)
    ensures
        r.deep_view() == spec_response_of(m.deep_view()),
{
    match m.header.rcode {
        1 => Response::FormatError,
        2 => Response::ServerFailure,
        3 => Response::NameError,
        4 => Response::NotImplemented,
        5 => Response::Refused,
        _ => Response::Records(m.answer, m.authority, m.additional),
    }
}

/// One request, from wire bytes to wire bytes. Undecodable bytes, a
/// message with QR set, or a question count other than one drop the
/// request. When the engine still needs upstream answers the caller
/// gets the list; otherwise the response is assembled — with the
/// authority section enriched by an NS run when it came back empty —
/// flagged as an authoritative answer, and encoded.
pub open spec fn spec_handle_request(
    b: Seq<u8>,
    resolver: EndpointV,
    config: Config,
    tbl: Seq<UpstreamEntryV>,
    tcp: bool,
    fuel: nat,
) -> RequestOutcomeV {
    match crate::protocol::spec_parse(b) {
        None => RequestOutcomeV::Dropped,
        Some(m) => {
            if m.header.qr {
                RequestOutcomeV::Dropped
            } else if m.question.len() != 1 {
                RequestOutcomeV::Dropped
            } else {
                let q = m.question[0];
                let o = spec_handle_dns(q, resolver, config, tbl, fuel);
                let enrich = o.authority.len() == 0 && q.qtype != 2;
                let o2 = spec_handle_dns(
                    QuestionV { qname: q.qname, qtype: 2, qclass: q.qclass },
                    resolver,
                    config,
                    tbl,
                    fuel,
                );
                let authority = if enrich {
                    o.authority + o2.authority
                } else {
                    o.authority
                };
                let additional = if enrich {
                    o.additional + o2.additional
                } else {
                    o.additional
                };
                let pending = if enrich {
                    o.pending + o2.pending
                } else {
                    o.pending
                };
                if pending.len() > 0 {
                    RequestOutcomeV::NeedsLookups(pending)
                } else {
                    let m2 = crate::protocol::MessageV {
                        header: crate::protocol::Header {
                            qr: true,
                            aa: true,
                            ra: false,
                            rcode: 0,
                            ..m.header
                        },
                        question: m.question,
                        answer: o.answer,
                        authority,
                        additional,
                        edns: m.edns,
                    };
                    RequestOutcomeV::Reply(crate::protocol::spec_serialize(m2, tcp))
                }
            }
        },
    }
}

/// Handles one raw request against the configuration, with the
/// upstream exchanges in `upstream`.
pub fn handle_request(
    buf: &[u8],
    resolver: &Endpoint,
    config: &Config,
    upstream: &UpstreamTable,
    tcp: bool,
    fuel: u32,
) -> (r: RequestOutcome)
    requires
        spec_wf_config(*config),
    ensures
        r.deep_view() == spec_handle_request(
            buf@,
            resolver.deep_view(),
            *config,
            upstream.deep_view(),
            tcp,
            fuel as nat,
        ),
{
    let ghost rv = resolver.deep_view();
    let ghost tv = upstream.deep_view();
    let message = match crate::protocol::parse(buf) {
        Ok(m) => m,
        Err(_) => {
            return RequestOutcome::Dropped;
        },
    };
    if message.header.qr {
        return RequestOutcome::Dropped;
    }
    if message.question.len() != 1 {
        proof {
            assert(message.deep_view().question.len() != 1);
        }
        return RequestOutcome::Dropped;
    }
    let ghost mv = message.deep_view();
    proof {
        assert(mv.question[0] == message.question@[0].deep_view());
    }
    let question = &message.question[0];
    let outcome = handle_dns(question, resolver, config, upstream, fuel);
    proof {
        assert(outcome.authority.deep_view().len() == outcome.authority@.len());
    }
    let enrich = outcome.authority.len() == 0 && question.qtype != 2;
    let mut authority = outcome.authority;
    let mut additional = outcome.additional;
    let mut pending = outcome.pending;
    if enrich {
        let ns_question = Question {
            qname: crate::protocol::clone_name(&question.qname),
            qtype: 2,
            qclass: question.qclass,
        };
        proof {
            assert(ns_question.deep_view() =~~= QuestionV {
                qname: mv.question[0].qname,
                qtype: 2,
                qclass: mv.question[0].qclass,
            });
        }
        let extra = handle_dns(&ns_question, resolver, config, upstream, fuel);
        append_resources(&mut authority, extra.authority);
        append_resources(&mut additional, extra.additional);
        append_lookups(&mut pending, extra.pending);
    }
    proof {
        assert(pending.deep_view().len() == pending@.len());
    }
    if pending.len() > 0 {
        return RequestOutcome::NeedsLookups(pending);
    }
    let response = Message {
        header: crate::protocol::Header {
            qr: true,
            aa: true,
            ra: false,
            rcode: 0,
            ..message.header
        },
        question: message.question,
        answer: outcome.answer,
        authority,
        additional,
        edns: message.edns,
    };
    proof {
        assert(mv.header.z < 8 && mv.header.opcode < 16) by {
            assert(crate::protocol::spec_parse(buf@) == Some(mv));
        }
        assert(crate::protocol::wf_header(response.header));
        assert(response.deep_view() =~~= ({
            let o = spec_handle_dns(mv.question[0], rv, *config, tv, fuel as nat);
            let enr = o.authority.len() == 0 && mv.question[0].qtype != 2;
            let o2 = spec_handle_dns(
                QuestionV {
                    qname: mv.question[0].qname,
                    qtype: 2,
                    qclass: mv.question[0].qclass,
                },
                rv,
                *config,
                tv,
                fuel as nat,
            );
            crate::protocol::MessageV {
                header: crate::protocol::Header { qr: true, aa: true, ra: false, rcode: 0, ..mv.header },
                question: mv.question,
                answer: o.answer,
                authority: if enr { o.authority + o2.authority } else { o.authority },
                additional: if enr { o.additional + o2.additional } else { o.additional },
                edns: mv.edns,
            }
        }));
    }
    let bytes = crate::protocol::serialize(&response, tcp);
    RequestOutcome::Reply(bytes)
}

} // verus!
