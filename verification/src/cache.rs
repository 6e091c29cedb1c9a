//! The TTL-aware response cache of the resolver client. Entries map a
//! question to a cached response; a read subtracts the time already
//! spent in the cache from every record's TTL, and expired entries are
//! removed on access.

use vstd::prelude::*;
use crate::protocol::{Question, QuestionV, Resource, ResourceV};
use crate::server::question_eq;

verus! {

#[derive(Debug, Clone, PartialEq)]
pub struct CacheEntry {
    pub question: Question,
    pub answer: Vec<Resource>,
    pub authority: Vec<Resource>,
    pub additional: Vec<Resource>,
    /// When the entry was stored, in seconds.
    pub cache_time: u64,
    /// When the entry stops being served, in seconds.
    pub expiration: u64,
}

/// A well-formed entry never outlives its records: the time it may
/// stay in the cache is at most every record's TTL.
pub open spec fn spec_entry_wf(e: CacheEntry) -> bool {
    &&& e.cache_time <= e.expiration
    &&& forall|i: int|
        0 <= i < e.answer@.len() ==> e.expiration - e.cache_time <= (#[trigger] e.answer@[i]).ttl
    &&& forall|i: int|
        0 <= i < e.authority@.len() ==> e.expiration - e.cache_time <= (
        #[trigger] e.authority@[i]).ttl
    &&& forall|i: int|
        0 <= i < e.additional@.len() ==> e.expiration - e.cache_time <= (
        #[trigger] e.additional@[i]).ttl
}

pub open spec fn spec_cache_wf(entries: Seq<CacheEntry>) -> bool {
    &&& forall|i: int| 0 <= i < entries.len() ==> spec_entry_wf(#[trigger] entries[i])
    &&& forall|i: int, j: int|
        0 <= i < j < entries.len() ==> (#[trigger] entries[i]).question.deep_view() != (
        #[trigger] entries[j]).question.deep_view()
}

/// A cached record as served at `elapsed` seconds after insertion: its
/// TTL is reduced by the time spent in the cache.
pub open spec fn spec_adjust(rs: Seq<ResourceV>, elapsed: int) -> Seq<ResourceV> {
    rs.map_values(
        |r: ResourceV|
            ResourceV {
                rname: r.rname,
                rtype: r.rtype,
                rclass: r.rclass,
                ttl: (r.ttl - elapsed) as u32,
                rdata: r.rdata,
            },
    )
}

/// What a lookup at time `now` returns, and the entries left behind:
/// a fresh entry is served with adjusted TTLs, an expired one is
/// dropped.
pub open spec fn spec_cache_lookup(entries: Seq<CacheEntry>, q: QuestionV, now: u64) -> (
    Option<(Seq<ResourceV>, Seq<ResourceV>, Seq<ResourceV>)>,
    Seq<CacheEntry>,
)
    decreases entries.len(),
{
    if entries.len() == 0 {
        (None, entries)
    } else if entries[0].question.deep_view() == q {
        let e = entries[0];
        if e.expiration > now {
            let elapsed = now - e.cache_time;
            (
                Some(
                    (
                        spec_adjust(e.answer.deep_view(), elapsed),
                        spec_adjust(e.authority.deep_view(), elapsed),
                        spec_adjust(e.additional.deep_view(), elapsed),
                    ),
                ),
                entries,
            )
        } else {
            (None, entries.drop_first())
        }
    } else {
        let (r, rest) = spec_cache_lookup(entries.drop_first(), q, now);
        (r, seq![entries[0]] + rest)
    }
}

/// The entries with any entry for `q` removed.
pub open spec fn spec_cache_remove(entries: Seq<CacheEntry>, q: QuestionV) -> Seq<CacheEntry>
    decreases entries.len(),
{
    if entries.len() == 0 {
        entries
    } else if entries[0].question.deep_view() == q {
        spec_cache_remove(entries.drop_first(), q)
    } else {
        seq![entries[0]] + spec_cache_remove(entries.drop_first(), q)
    }
}

/// The smallest TTL among the records, or the largest 32-bit value
/// when there are none.
pub open spec fn spec_least_ttl(rs: Seq<ResourceV>, acc: u32) -> u32
    decreases rs.len(),
{
    if rs.len() == 0 {
        acc
    } else if rs[0].ttl < acc {
        spec_least_ttl(rs.drop_first(), rs[0].ttl)
    } else {
        spec_least_ttl(rs.drop_first(), acc)
    }
}

/// TTLs served for one cache entry never increase over time: what a
/// later read returns is at most what an earlier read returned, record
/// by record.
pub proof fn lemma_cache_ttl_monotone(entries: Seq<CacheEntry>, q: QuestionV, t1: u64, t2: u64)
    requires
        spec_cache_wf(entries),
        forall|i: int| 0 <= i < entries.len() ==> (#[trigger] entries[i]).cache_time <= t1,
        t1 <= t2,
        spec_cache_lookup(entries, q, t1).0 is Some,
        spec_cache_lookup(entries, q, t2).0 is Some,
    ensures
        ({
            let r1 = spec_cache_lookup(entries, q, t1).0->0;
            let r2 = spec_cache_lookup(entries, q, t2).0->0;
            &&& r1.0.len() == r2.0.len()
            &&& r1.1.len() == r2.1.len()
            &&& r1.2.len() == r2.2.len()
            &&& forall|i: int| 0 <= i < r1.0.len() ==> (#[trigger] r2.0[i]).ttl <= r1.0[i].ttl
            &&& forall|i: int| 0 <= i < r1.1.len() ==> (#[trigger] r2.1[i]).ttl <= r1.1[i].ttl
            &&& forall|i: int| 0 <= i < r1.2.len() ==> (#[trigger] r2.2[i]).ttl <= r1.2[i].ttl
        }),
    decreases entries.len(),
{
    if entries.len() == 0 {
    } else if entries[0].question.deep_view() == q {
        let e = entries[0];
        assert(spec_entry_wf(e));
        let e1 = t1 - e.cache_time;
        let e2 = t2 - e.cache_time;
        assert forall|i: int| 0 <= i < e.answer@.len() implies (#[trigger] spec_adjust(
            e.answer.deep_view(),
            e2,
        )[i]).ttl <= spec_adjust(e.answer.deep_view(), e1)[i].ttl by {
            assert(e.answer.deep_view()[i] == e.answer@[i].deep_view());
            assert(e.expiration - e.cache_time <= e.answer@[i].ttl);
        }
        assert forall|i: int| 0 <= i < e.authority@.len() implies (#[trigger] spec_adjust(
            e.authority.deep_view(),
            e2,
        )[i]).ttl <= spec_adjust(e.authority.deep_view(), e1)[i].ttl by {
            assert(e.authority.deep_view()[i] == e.authority@[i].deep_view());
            assert(e.expiration - e.cache_time <= e.authority@[i].ttl);
        }
        assert forall|i: int| 0 <= i < e.additional@.len() implies (#[trigger] spec_adjust(
            e.additional.deep_view(),
            e2,
        )[i]).ttl <= spec_adjust(e.additional.deep_view(), e1)[i].ttl by {
            assert(e.additional.deep_view()[i] == e.additional@[i].deep_view());
            assert(e.expiration - e.cache_time <= e.additional@[i].ttl);
        }
    } else {
        assert(forall|i: int|
            0 <= i < entries.drop_first().len() ==> #[trigger] entries.drop_first()[i]
                == entries[i + 1]);
        lemma_cache_ttl_monotone(entries.drop_first(), q, t1, t2);
    }
}

/// The process-wide response cache, keyed by question.
#[derive(Debug, Clone, PartialEq, Default)]
pub struct Cache {
    pub entries: Vec<CacheEntry>,
}

impl Cache {
    pub open spec fn wf(&self) -> bool {
        spec_cache_wf(self.entries@)
    }

    pub fn new() -> (c: Cache)
        ensures
            c.wf(),
            c.entries@.len() == 0,
    {
        Cache { entries: Vec::new() }
    }

    /// Serves a cached response if one is stored and still valid,
    /// subtracting the elapsed time from every TTL; removes the entry
    /// if it is expired.
    pub fn lookup(&mut self, question: &Question, now: u64) -> (r: Option<
        (Vec<Resource>, Vec<Resource>, Vec<Resource>),
    >)
        requires
            old(self).wf(),
            forall|i: int|
                0 <= i < old(self).entries@.len() ==> (
                #[trigger] old(self).entries@[i]).cache_time <= now,
        ensures
            final(self).wf(),
            ({
                let (sr, srest) = spec_cache_lookup(old(self).entries@, question.deep_view(), now);
                &&& final(self).entries@ == srest
                &&& match r {
                    Some(t) => sr == Some(
                        (t.0.deep_view(), t.1.deep_view(), t.2.deep_view()),
                    ),
                    None => sr is None,
                }
            }),
    {
        let ghost q = question.deep_view();
        let ghost entries0 = self.entries@;
        let mut i: usize = 0;
        proof {
            assert(entries0.skip(0) =~= entries0);
            let (r0, rest0) = spec_cache_lookup(entries0, q, now);
            assert(entries0.take(0) + rest0 =~= rest0);
        }
        while i < self.entries.len()
            invariant
                old(self).wf(),
                forall|j: int|
                    0 <= j < entries0.len() ==> (#[trigger] entries0[j]).cache_time <= now,
                self == old(self),
                entries0 == self.entries@,
                i <= self.entries@.len(),
                q == question.deep_view(),
                forall|j: int|
                    0 <= j < i ==> (#[trigger] entries0[j]).question.deep_view() != q,
                spec_cache_lookup(entries0, q, now) == ({
                    let (r, rest) = spec_cache_lookup(entries0.skip(i as int), q, now);
                    (r, entries0.take(i as int) + rest)
                }),
            decreases self.entries@.len() - i,
        {
            proof {
                assert(entries0.skip(i as int)[0] == entries0[i as int]);
                assert(entries0.skip(i as int).drop_first() =~= entries0.skip(i as int + 1));
            }
            if question_eq(&self.entries[i].question, question) {
                let e = &self.entries[i];
                if e.expiration > now {
                    let elapsed: u64 = now - e.cache_time;
                    proof {
                        assert(spec_entry_wf(entries0[i as int]));
                    }
                    let a = adjust_resources(&e.answer, elapsed);
                    let h = adjust_resources(&e.authority, elapsed);
                    let d = adjust_resources(&e.additional, elapsed);
                    proof {
                        assert(entries0.take(i as int) + entries0.skip(i as int) =~= entries0);
                    }
                    return Some((a, h, d));
                } else {
                    let ghost before = self.entries@;
                    self.entries.remove(i);
                    proof {
                        assert(self.entries@ =~= entries0.take(i as int) + entries0.skip(
                            i as int + 1,
                        ));
                        assert(forall|a: int, b: int|
                            0 <= a < b < self.entries@.len() ==> #[trigger] self.entries@[a]
                                .question.deep_view() != #[trigger] self.entries@[b]
                                .question.deep_view());
                    }
                    return None;
                }
            }
            i += 1;
            proof {
                assert(entries0.take(i as int).drop_last() =~= entries0.take(i as int - 1));
                assert(entries0.take(i as int).last() == entries0[i as int - 1]);
                let (r1, rest1) = spec_cache_lookup(entries0.skip(i as int), q, now);
                assert(entries0.take(i as int - 1) + (seq![entries0[i as int - 1]] + rest1)
                    =~= entries0.take(i as int) + rest1);
            }
        }
        proof {
            assert(entries0.skip(entries0.len() as int) =~= Seq::<CacheEntry>::empty());
            assert(entries0.take(entries0.len() as int) + Seq::<CacheEntry>::empty()
                =~= entries0);
        }
        None
    }

    /// Stores a response under its question: any previous entry for the
    /// question is replaced, and the entry expires after the smallest
    /// TTL among the stored records.
    pub fn insert(
        &mut self,
        question: Question,
        answer: Vec<Resource>,
        authority: Vec<Resource>,
        additional: Vec<Resource>,
        now: u64,
    )
        requires
            old(self).wf(),
            now <= 0xFFFFFFFF00000000,
        ensures
            final(self).wf(),
            ({
                let least = spec_least_ttl(
                    answer.deep_view() + authority.deep_view() + additional.deep_view(),
                    0xFFFFFFFF,
                );
                final(self).entries@ == spec_cache_remove(
                    old(self).entries@,
                    question.deep_view(),
                ).push(
                    CacheEntry {
                        question,
                        answer,
                        authority,
                        additional,
                        cache_time: now,
                        expiration: (now + least) as u64,
                    },
                )
            }),
    {
        let ghost q = question.deep_view();
        let mut least: u32 = 0xFFFFFFFF;
        let ghost all = answer.deep_view() + authority.deep_view() + additional.deep_view();
        least = least_ttl_of(&answer, least);
        least = least_ttl_of(&authority, least);
        least = least_ttl_of(&additional, least);
        proof {
            lemma_least_ttl_chain(
                answer.deep_view(),
                authority.deep_view(),
                additional.deep_view(),
                0xFFFFFFFF,
            );
            lemma_least_ttl_bound(all, 0xFFFFFFFF);
        }
        let mut kept: Vec<CacheEntry> = Vec::new();
        let ghost entries0 = self.entries@;
        proof {
            assert(kept@ + spec_cache_remove(entries0, q) =~= spec_cache_remove(entries0, q));
            assert(self.entries@ == entries0.skip(0)) by {
                assert(entries0.skip(0) =~= entries0);
            }
        }
        while self.entries.len() > 0
            invariant
                spec_cache_wf(entries0),
                q == question.deep_view(),
                exists|i: int|
                    0 <= i <= entries0.len() && self.entries@ == #[trigger] entries0.skip(i),
                spec_cache_remove(entries0, q) == kept@ + spec_cache_remove(self.entries@, q),
                forall|a: int, b: int|
                    0 <= a < b < kept@.len() ==> (#[trigger] kept@[a]).question.deep_view() != (
                    #[trigger] kept@[b]).question.deep_view(),
                forall|a: int|
                    0 <= a < kept@.len() ==> spec_entry_wf(#[trigger] kept@[a]) && (
                    #[trigger] kept@[a]).question.deep_view() != q,
                forall|a: int, b: int|
                    0 <= a < kept@.len() && 0 <= b < self.entries@.len() ==> (
                    #[trigger] kept@[a]).question.deep_view() != (
                    #[trigger] self.entries@[b]).question.deep_view(),
            decreases self.entries@.len(),
        {
            let ghost before = self.entries@;
            let ghost i0 = choose|i: int|
                0 <= i <= entries0.len() && before == #[trigger] entries0.skip(i);
            let e = self.entries.remove(0);
            proof {
                assert(self.entries@ =~= before.drop_first());
                assert(before == entries0.skip(i0));
                assert(self.entries@ == entries0.skip(i0 + 1)) by {
                    assert(before.drop_first() =~= entries0.skip(i0 + 1));
                }
                assert(spec_entry_wf(entries0[i0]));
                assert(e == entries0[i0]);
                assert(forall|a: int, b: int|
                    0 <= a < b < entries0.skip(i0).len() ==> (
                    #[trigger] entries0.skip(i0)[a]).question.deep_view() != (
                    #[trigger] entries0.skip(i0)[b]).question.deep_view()) by {
                    assert(forall|a: int|
                        0 <= a < entries0.skip(i0).len() ==> #[trigger] entries0.skip(i0)[a]
                            == entries0[i0 + a]);
                }
            }
            let keep = !question_eq(&e.question, &question);
            if keep {
                kept.push(e);
                proof {
                    assert(kept@.drop_last() + (seq![entries0[i0]] + spec_cache_remove(
                        self.entries@,
                        q,
                    )) =~= kept@ + spec_cache_remove(self.entries@, q));
                }
            }
        }
        proof {
            assert(kept@ + Seq::<CacheEntry>::empty() =~= kept@);
            assert(self.entries@.len() == 0);
            assert(self.entries@ =~= Seq::<CacheEntry>::empty());
        }
        let ghost keptv = kept@;
        kept.push(
            CacheEntry {
                question,
                answer,
                authority,
                additional,
                cache_time: now,
                expiration: now + (least as u64),
            },
        );
        self.entries = kept;
        proof {
            let all = answer.deep_view() + authority.deep_view() + additional.deep_view();
            let least_v = spec_least_ttl(all, 0xFFFFFFFF);
            let es = self.entries@;
            let newe = es.last();
            assert(es == keptv.push(newe));
            assert forall|jj: int| 0 <= jj < answer@.len() implies newe.expiration
                - newe.cache_time <= (#[trigger] answer@[jj]).ttl by {
                assert(all[jj] == answer.deep_view()[jj]);
                assert(answer.deep_view()[jj] == answer@[jj].deep_view());
                assert(least_v <= all[jj].ttl);
            }
            assert forall|jj: int| 0 <= jj < authority@.len() implies newe.expiration
                - newe.cache_time <= (#[trigger] authority@[jj]).ttl by {
                assert(all[answer@.len() + jj] == authority.deep_view()[jj]);
                assert(authority.deep_view()[jj] == authority@[jj].deep_view());
                assert(least_v <= all[answer@.len() + jj].ttl);
            }
            assert forall|jj: int| 0 <= jj < additional@.len() implies newe.expiration
                - newe.cache_time <= (#[trigger] additional@[jj]).ttl by {
                assert(all[answer@.len() + authority@.len() + jj] == additional.deep_view()[jj]);
                assert(additional.deep_view()[jj] == additional@[jj].deep_view());
                assert(least_v <= all[answer@.len() + authority@.len() + jj].ttl);
            }
            assert(spec_entry_wf(newe));
            assert forall|a: int, b: int| 0 <= a < b < es.len() implies (
            #[trigger] es[a]).question.deep_view() != (#[trigger] es[b]).question.deep_view() by {
                if b < es.len() - 1 {
                    assert(es[a] == keptv[a] && es[b] == keptv[b]);
                } else {
                    assert(es[a] == keptv[a]);
                    assert(es[b] == newe);
                }
            }
            assert(spec_cache_wf(es));
            assert(es =~= spec_cache_remove(old(self).entries@, question.deep_view()).push(newe));
        }
    }
}

fn adjust_resources(rs: &Vec<Resource>, elapsed: u64) -> (out: Vec<Resource>)
    requires
        forall|i: int| 0 <= i < rs@.len() ==> elapsed <= (#[trigger] rs@[i]).ttl,
    ensures
        out.deep_view() == spec_adjust(rs.deep_view(), elapsed as int),
{
    let mut out: Vec<Resource> = Vec::new();
    let mut i: usize = 0;
    proof {
        assert(out.deep_view() =~~= spec_adjust(rs.deep_view().take(0), elapsed as int));
    }
    while i < rs.len()
        invariant
            i <= rs@.len(),
            rs.deep_view().len() == rs@.len(),
            forall|j: int| 0 <= j < rs@.len() ==> elapsed <= (#[trigger] rs@[j]).ttl,
            out.deep_view() == spec_adjust(rs.deep_view().take(i as int), elapsed as int),
        decreases rs@.len() - i,
    {
        proof {
            assert(out.deep_view().len() == i as int);
            assert(rs.deep_view()[i as int] == rs@[i as int].deep_view());
        }
        let r = &rs[i];
        let ghost expect = ResourceV {
            rname: rs.deep_view()[i as int].rname,
            rtype: r.rtype,
            rclass: r.rclass,
            ttl: (rs.deep_view()[i as int].ttl - elapsed as int) as u32,
            rdata: rs.deep_view()[i as int].rdata,
        };
        let ghost prev = out.deep_view();
        out.push(
            Resource {
                rname: crate::protocol::clone_name(&r.rname),
                rtype: r.rtype,
                rclass: r.rclass,
                ttl: r.ttl - (elapsed as u32),
                rdata: crate::protocol::clone_bytes(&r.rdata),
            },
        );
        proof {
            assert(out.deep_view().last() =~~= expect);
            assert(out.deep_view() =~~= prev.push(expect));
            assert(spec_adjust(rs.deep_view().take(i as int), elapsed as int).push(expect)
                =~~= spec_adjust(rs.deep_view().take(i as int + 1), elapsed as int));
        }
        i += 1;
    }
    proof {
        assert(rs.deep_view().take(rs@.len() as int) =~= rs.deep_view());
    }
    out
}

fn least_ttl_of(rs: &Vec<Resource>, acc0: u32) -> (r: u32)
    ensures
        r == spec_least_ttl(rs.deep_view(), acc0),
{
    let ghost rv = rs.deep_view();
    let mut acc = acc0;
    let mut i: usize = 0;
    proof {
        assert(rv.skip(0) =~= rv);
    }
    while i < rs.len()
        invariant
            rv == rs.deep_view(),
            rv.len() == rs@.len(),
            i <= rs@.len(),
            spec_least_ttl(rv, acc0) == spec_least_ttl(rv.skip(i as int), acc),
        decreases rs@.len() - i,
    {
        proof {
            assert(rv.skip(i as int)[0] == rv[i as int]);
            assert(rv.skip(i as int).drop_first() =~= rv.skip(i as int + 1));
            assert(rv[i as int] == rs@[i as int].deep_view());
        }
        if rs[i].ttl < acc {
            acc = rs[i].ttl;
        }
        i += 1;
    }
    proof {
        assert(rv.skip(rv.len() as int) =~= Seq::<ResourceV>::empty());
    }
    acc
}

/// Folding the least TTL over a concatenation is folding it over the
/// parts in turn.
proof fn lemma_least_ttl_concat(x: Seq<ResourceV>, y: Seq<ResourceV>, acc: u32)
    ensures
        spec_least_ttl(x + y, acc) == spec_least_ttl(y, spec_least_ttl(x, acc)),
    decreases x.len(),
{
    if x.len() == 0 {
        assert(x + y =~= y);
    } else {
        assert((x + y).drop_first() =~= x.drop_first() + y);
        if x[0].ttl < acc {
            lemma_least_ttl_concat(x.drop_first(), y, x[0].ttl);
        } else {
            lemma_least_ttl_concat(x.drop_first(), y, acc);
        }
    }
}

proof fn lemma_least_ttl_chain(a: Seq<ResourceV>, h: Seq<ResourceV>, d: Seq<ResourceV>, acc: u32)
    ensures
        spec_least_ttl(a + h + d, acc) == spec_least_ttl(
            d,
            spec_least_ttl(h, spec_least_ttl(a, acc)),
        ),
{
    lemma_least_ttl_concat(a + h, d, acc);
    lemma_least_ttl_concat(a, h, acc);
    assert(a + h + d =~= (a + h) + d);
}

/// The least TTL is at most the start value and at most every record's
/// TTL.
proof fn lemma_least_ttl_bound(rs: Seq<ResourceV>, acc: u32)
    ensures
        spec_least_ttl(rs, acc) <= acc,
        forall|i: int| 0 <= i < rs.len() ==> spec_least_ttl(rs, acc) <= (#[trigger] rs[i]).ttl,
    decreases rs.len(),
{
    if rs.len() > 0 {
        if rs[0].ttl < acc {
            lemma_least_ttl_bound(rs.drop_first(), rs[0].ttl);
        } else {
            lemma_least_ttl_bound(rs.drop_first(), acc);
        }
        assert forall|i: int| 0 <= i < rs.len() implies spec_least_ttl(rs, acc) <= (
        #[trigger] rs[i]).ttl by {
            if i > 0 {
                assert(rs[i] == rs.drop_first()[i - 1]);
            }
        }
    }
}

} // verus!
