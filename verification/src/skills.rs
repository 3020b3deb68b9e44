//! Shared Skills: what each agent has, and the read-only plan for moving
//! personal Skills into the shared root.
use vstd::prelude::*;
use crate::order::{lemma_comps_order, path_lt, path_lt_s};
use crate::paths::{join, join_s};
use crate::smap::{get_s, keys_increasing, StrMap};
use crate::error::{HkError, HkErrorV};
use crate::text::{
    join as join_text, join_s as join_text_s, lemma_lt_asym, lemma_lt_irrefl, lemma_lt_trans, lt_s, push_str, str_is,
    str_precedes, strs,
};

verus! {

/// Where one agent keeps its personal Skills.
#[derive(Debug, PartialEq, Eq)]
pub struct SkillSource {
    pub agent: String,
    pub root: String,
}

/// A Skill directory found in a root.
#[derive(Debug, PartialEq, Eq)]
pub struct SkillInventoryEntry {
    pub name: String,
    pub path: String,
    pub sha256: String,
}

/// Where a copy of a Skill was found.
#[derive(Debug, PartialEq, Eq)]
pub struct SkillOrigin {
    pub agent: String,
    pub path: String,
    pub sha256: String,
}

/// What the plan does with one Skill name.
#[derive(Clone, Copy, PartialEq, Eq, Structural, Debug)]
pub enum SkillPlanDecision {
    /// Copy it into the shared root.
    Add,
    /// The shared root already has it, with the same content.
    AlreadyCanonical,
    /// Copies differ; a person has to choose.
    Conflict,
}

/// The plan for one Skill name.
#[derive(Debug, PartialEq, Eq)]
pub struct SkillPlanItem {
    pub name: String,
    pub destination: String,
    pub canonical_sha256: Option<String>,
    pub sources: Vec<SkillOrigin>,
    pub decision: SkillPlanDecision,
}

/// The whole migration plan.
#[derive(Debug, PartialEq, Eq)]
pub struct SkillMigrationPlan {
    pub canonical_root: String,
    pub items: Vec<SkillPlanItem>,
}

impl SkillOrigin {
    /// A copy.
    pub fn dup(&self) -> (r: Self)
        ensures
            r == *self,
    {
        SkillOrigin {
            agent: self.agent.clone(),
            path: self.path.clone(),
            sha256: self.sha256.clone(),
        }
    }
}

/// Origins in the plan's order: by agent, then by path.
pub open spec fn origin_lt(a: SkillOrigin, b: SkillOrigin) -> bool {
    lt_s(a.agent@, b.agent@) || (a.agent@ == b.agent@ && path_lt_s(a.path@, b.path@))
}

/// No origin comes before an earlier one.
pub open spec fn origins_sorted(s: Seq<SkillOrigin>) -> bool {
    forall|i: int, j: int| 0 <= i < j < s.len() ==> !origin_lt(#[trigger] s[j], #[trigger] s[i])
}

/// `origin_lt` is transitive and asymmetric.
proof fn lemma_origin_order(a: SkillOrigin, b: SkillOrigin, c: SkillOrigin)
    ensures
        origin_lt(a, b) && origin_lt(b, c) ==> origin_lt(a, c),
        origin_lt(a, b) ==> !origin_lt(b, a),
{
    lemma_lt_asym(a.agent@, b.agent@);
    lemma_lt_irrefl(a.agent@);
    if lt_s(a.agent@, b.agent@) && lt_s(b.agent@, c.agent@) {
        lemma_lt_trans(a.agent@, b.agent@, c.agent@);
    }
    lemma_comps_order(
        crate::paths::comps(a.path@),
        crate::paths::comps(b.path@),
        crate::paths::comps(c.path@),
    );
}

/// `origin_lt`.
fn origin_before(a: &SkillOrigin, b: &SkillOrigin) -> (r: bool)
    ensures
        r == origin_lt(*a, *b),
{
    if str_precedes(a.agent.as_str(), b.agent.as_str()) {
        return true;
    }
    str_is(a.agent.as_str(), b.agent.as_str()) && path_lt(a.path.as_str(), b.path.as_str())
}

/// The origins sorted by agent then path; equal ones keep their order.
pub fn sort_origins(v: Vec<SkillOrigin>) -> (r: Vec<SkillOrigin>)
    ensures
        origins_sorted(r@),
        r@.to_multiset() == v@.to_multiset(),
{
    let mut out: Vec<SkillOrigin> = Vec::new();
    let mut v = v;
    let ghost all = v@;
    let mut taken: usize = 0;
    proof {
        assert(all.take(0) =~= Seq::<SkillOrigin>::empty());
    }
    while taken < v.len()
        invariant
            v@ == all,
            taken <= all.len(),
            origins_sorted(out@),
            out@.to_multiset() == all.take(taken as int).to_multiset(),
        decreases all.len() - taken,
    {
        let x = v[taken].dup();
        proof {
            assert(x == all[taken as int]);
        }
        let mut p: usize = 0;
        while p < out.len() && !origin_before(&x, &out[p])
            invariant
                p <= out@.len(),
                forall|k: int| 0 <= k < p ==> !origin_lt(x, #[trigger] out@[k]),
            decreases out@.len() - p,
        {
            p += 1;
        }
        let ghost before = out@;
        out.insert(p, x);
        proof {
            assert forall|i: int, j: int| 0 <= i < j < out@.len() implies !origin_lt(
                #[trigger] out@[j],
                #[trigger] out@[i],
            ) by {
                if i < p && j > p {
                    assert(out@[i] == before[i] && out@[j] == before[j - 1]);
                } else if i < p && j == p {
                    assert(out@[i] == before[i]);
                } else if i == p && j > p {
                    assert(out@[j] == before[j - 1]);
                    lemma_origin_order(before[j - 1], x, before[p as int]);
                    lemma_origin_order(x, before[p as int], x);
                    if j - 1 > p {
                        assert(!origin_lt(before[j - 1], before[p as int]));
                    }
                } else if i > p {
                    assert(out@[i] == before[i - 1] && out@[j] == before[j - 1]);
                } else {
                    assert(out@[i] == before[i] && out@[j] == before[j]);
                }
            }
            vstd::seq_lib::to_multiset_insert(before, p as int, x);
            assert(all.take(taken + 1) =~= all.take(taken as int).push(x));
            vstd::seq_lib::to_multiset_build(all.take(taken as int), x);
        }
        taken += 1;
    }
    proof {
        assert(all.take(taken as int) =~= all);
    }
    out
}

/// Each inventory entry of a source as an origin, paired with the Skill's name.
pub open spec fn tag_origins(agent: String, es: Seq<SkillInventoryEntry>) -> Seq<(Seq<char>, SkillOrigin)> {
    es.map_values(
        |e: SkillInventoryEntry| (e.name@, SkillOrigin { agent: agent, path: e.path, sha256: e.sha256 }),
    )
}

/// All origins, source by source, each paired with its Skill's name.
pub open spec fn found_s(sources: Seq<(SkillSource, Vec<SkillInventoryEntry>)>) -> Seq<(Seq<char>, SkillOrigin)>
    decreases sources.len(),
{
    if sources.len() == 0 {
        Seq::empty()
    } else {
        found_s(sources.drop_last()) + tag_origins(sources.last().0.agent, sources.last().1@)
    }
}

/// The origins of Skill `n`, in the order they were found.
pub open spec fn named_s(f: Seq<(Seq<char>, SkillOrigin)>, n: Seq<char>) -> Seq<SkillOrigin>
    decreases f.len(),
{
    if f.len() == 0 {
        Seq::empty()
    } else if f.last().0 == n {
        named_s(f.drop_last(), n).push(f.last().1)
    } else {
        named_s(f.drop_last(), n)
    }
}

/// The hash of the shared root's copy of Skill `n` (the last entry of that name).
pub open spec fn canon_sha_s(c: Seq<SkillInventoryEntry>, n: Seq<char>) -> Option<Seq<char>>
    decreases c.len(),
{
    if c.len() == 0 {
        None
    } else if c.last().name@ == n {
        Some(c.last().sha256@)
    } else {
        canon_sha_s(c.drop_last(), n)
    }
}

/// The hashes of all copies of a Skill: its origins', then the shared root's.
pub open spec fn hashes_s(os: Seq<SkillOrigin>, canon: Option<Seq<char>>) -> Seq<Seq<char>> {
    os.map_values(|o: SkillOrigin| o.sha256@) + match canon {
        Some(c) => seq![c],
        None => Seq::empty(),
    }
}

/// Two of the hashes differ.
pub open spec fn mixed(hs: Seq<Seq<char>>) -> bool {
    exists|i: int, j: int| 0 <= i < hs.len() && 0 <= j < hs.len() && hs[i] != hs[j]
}

/// The decision for a Skill: copies that differ conflict; else a Skill the
/// shared root has is already there; else it is added.
pub open spec fn decision_s(os: Seq<SkillOrigin>, canon: Option<Seq<char>>) -> SkillPlanDecision {
    if mixed(hashes_s(os, canon)) {
        SkillPlanDecision::Conflict
    } else if canon is Some {
        SkillPlanDecision::AlreadyCanonical
    } else {
        SkillPlanDecision::Add
    }
}

/// The characters of an optional string.
pub open spec fn otext(o: Option<String>) -> Option<Seq<char>> {
    match o {
        Some(s) => Some(s@),
        None => None,
    }
}

/// Whether `item` is the plan for its Skill, given the origins `f` and the
/// shared root's inventory `c`.
pub open spec fn item_ok(
    item: SkillPlanItem,
    root: Seq<char>,
    f: Seq<(Seq<char>, SkillOrigin)>,
    c: Seq<SkillInventoryEntry>,
) -> bool {
    &&& item.destination@ == join_s(root, item.name@)
    &&& otext(item.canonical_sha256) == canon_sha_s(c, item.name@)
    &&& origins_sorted(item.sources@)
    &&& item.sources@.to_multiset() == named_s(f, item.name@).to_multiset()
    &&& item.decision == decision_s(named_s(f, item.name@), canon_sha_s(c, item.name@))
}

/// Some origin belongs to Skill `n`.
pub open spec fn has_skill(f: Seq<(Seq<char>, SkillOrigin)>, n: Seq<char>) -> bool {
    exists|k: int| 0 <= k < f.len() && #[trigger] f[k].0 == n
}

/// `hashes_s` computed: whether two copies differ.
fn copies_differ(os: &Vec<SkillOrigin>, canon: &Option<String>) -> (b: bool)
    ensures
        b == mixed(hashes_s(os@, otext(*canon))),
{
    let mut hs: Vec<String> = Vec::new();
    let mut i: usize = 0;
    while i < os.len()
        invariant
            i <= os@.len(),
            crate::text::strs(hs@) == os@.take(i as int).map_values(|o: SkillOrigin| o.sha256@),
        decreases os@.len() - i,
    {
        let ghost before = hs@;
        hs.push(os[i].sha256.clone());
        proof {
            assert(os@.take(i + 1).map_values(|o: SkillOrigin| o.sha256@) =~= os@.take(
                i as int,
            ).map_values(|o: SkillOrigin| o.sha256@).push(os@[i as int].sha256@));
            assert(crate::text::strs(hs@) =~= crate::text::strs(before).push(os@[i as int].sha256@));
        }
        i += 1;
    }
    if let Some(c) = canon {
        let ghost before = hs@;
        hs.push(c.clone());
        proof {
            assert(crate::text::strs(hs@) =~= crate::text::strs(before).push(c@));
        }
    }
    proof {
        assert(os@.take(os@.len() as int) =~= os@);
        assert(crate::text::strs(hs@) =~= hashes_s(os@, otext(*canon)));
    }
    let ghost h = hashes_s(os@, otext(*canon));
    if hs.len() == 0 {
        return false;
    }
    let mut k: usize = 1;
    while k < hs.len()
        invariant
            1 <= k <= hs@.len(),
            crate::text::strs(hs@) == h,
            h == hashes_s(os@, otext(*canon)),
            forall|j: int| 0 <= j < k ==> #[trigger] h[j] == h[0],
        decreases hs@.len() - k,
    {
        proof {
            assert(h[k as int] == hs@[k as int]@);
            assert(h[0] == hs@[0]@);
        }
        if !str_is(hs[k].as_str(), hs[0].as_str()) {
            proof {
                assert(h[k as int] == hs@[k as int]@);
                assert(h[0] == hs@[0]@);
                assert(h[k as int] != h[0]);
                assert(mixed(h));
            }
            return true;
        }
        k += 1;
    }
    proof {
        assert(!mixed(h)) by {
            if mixed(h) {
                let (i, j) = choose|i: int, j: int| 0 <= i < h.len() && 0 <= j < h.len() && h[i] != h[j];
                assert(h[i] == h[0] && h[j] == h[0]);
            }
        }
    }
    false
}

/// Copies of a list of origins.
fn dup_origins(v: &Vec<SkillOrigin>) -> (r: Vec<SkillOrigin>)
    ensures
        r@ == v@,
{
    let mut r: Vec<SkillOrigin> = Vec::new();
    let mut i: usize = 0;
    while i < v.len()
        invariant
            i <= v@.len(),
            r@ == v@.take(i as int),
        decreases v@.len() - i,
    {
        r.push(v[i].dup());
        proof {
            assert(v@.take(i + 1) =~= v@.take(i as int).push(v@[i as int]));
        }
        i += 1;
    }
    proof {
        assert(v@.take(v@.len() as int) =~= v@);
    }
    r
}

/// `found_s` grows by one source at a time.
proof fn lemma_found_step(sources: Seq<(SkillSource, Vec<SkillInventoryEntry>)>, i: int)
    requires
        0 <= i < sources.len(),
    ensures
        found_s(sources.take(i + 1)) == found_s(sources.take(i)) + tag_origins(
            sources[i].0.agent,
            sources[i].1@,
        ),
{
    assert(sources.take(i + 1).drop_last() =~= sources.take(i));
}

/// `plan` is the migration plan into `root` for the personal Skills of
/// `sources`, given the shared root's inventory `canonical`: one item per
/// Skill name found in the sources, in strictly increasing name order, each
/// as `item_ok` says.
pub open spec fn is_migration_plan(
    plan: SkillMigrationPlan,
    root: Seq<char>,
    canonical: Seq<SkillInventoryEntry>,
    sources: Seq<(SkillSource, Vec<SkillInventoryEntry>)>,
) -> bool {
    &&& plan.canonical_root@ == root
    &&& forall|i: int, j: int|
        0 <= i < j < plan.items@.len() ==> lt_s(#[trigger] plan.items@[i].name@, #[trigger] plan.items@[j].name@)
    &&& forall|i: int|
        0 <= i < plan.items@.len() ==> has_skill(found_s(sources), #[trigger] plan.items@[i].name@) && item_ok(
            plan.items@[i],
            root,
            found_s(sources),
            canonical,
        )
    &&& forall|n: Seq<char>|
        has_skill(found_s(sources), n) ==> exists|i: int|
            0 <= i < plan.items@.len() && #[trigger] plan.items@[i].name@ == n
}

/// `plan_skill_migration`, given the inventory of the shared root
/// (`canonical`) and of each source: one item per Skill name found in the
/// sources, in name order, with its copies sorted by agent and path, the
/// shared root's hash of it, and the decision.
pub fn plan_skill_migration(
    canonical_root: &str,
    canonical: &Vec<SkillInventoryEntry>,
    sources: &Vec<(SkillSource, Vec<SkillInventoryEntry>)>,
) -> (plan: SkillMigrationPlan)
    ensures
        is_migration_plan(plan, canonical_root@, canonical@, sources@),
{
    let mut canon: StrMap<String> = StrMap::new();
    let mut c: usize = 0;
    while c < canonical.len()
        invariant
            c <= canonical@.len(),
            forall|n: Seq<char>|
                #[trigger] canon@.dom().contains(n) <==> canon_sha_s(canonical@.take(c as int), n) is Some,
            forall|n: Seq<char>|
                #[trigger] canon@.dom().contains(n) ==> Some(canon@[n]@) == canon_sha_s(
                    canonical@.take(c as int),
                    n,
                ),
        decreases canonical@.len() - c,
    {
        canon.insert(canonical[c].name.clone(), canonical[c].sha256.clone());
        proof {
            assert(canonical@.take(c + 1).drop_last() =~= canonical@.take(c as int));
            assert(canonical@.take(c + 1).last() == canonical@[c as int]);
        }
        c += 1;
    }
    proof {
        assert(canonical@.take(canonical@.len() as int) =~= canonical@);
    }
    let ghost all = found_s(sources@);
    let mut grouped: StrMap<Vec<SkillOrigin>> = StrMap::new();
    let mut i: usize = 0;
    proof {
        assert(sources@.take(0) =~= Seq::<(SkillSource, Vec<SkillInventoryEntry>)>::empty());
    }
    while i < sources.len()
        invariant
            i <= sources@.len(),
            forall|n: Seq<char>|
                #[trigger] grouped@.dom().contains(n) <==> has_skill(found_s(sources@.take(i as int)), n),
            forall|n: Seq<char>|
                #[trigger] grouped@.dom().contains(n) ==> grouped@[n]@ == named_s(
                    found_s(sources@.take(i as int)),
                    n,
                ),
        decreases sources@.len() - i,
    {
        let agent = &sources[i].0.agent;
        let entries = &sources[i].1;
        let ghost f0 = found_s(sources@.take(i as int));
        let mut j: usize = 0;
        proof {
            assert(f0 + tag_origins(*agent, entries@).take(0) =~= f0);
        }
        while j < entries.len()
            invariant
                j <= entries@.len(),
                forall|n: Seq<char>|
                    #[trigger] grouped@.dom().contains(n) <==> has_skill(
                        f0 + tag_origins(*agent, entries@).take(j as int),
                        n,
                    ),
                forall|n: Seq<char>|
                    #[trigger] grouped@.dom().contains(n) ==> grouped@[n]@ == named_s(
                        f0 + tag_origins(*agent, entries@).take(j as int),
                        n,
                    ),
            decreases entries@.len() - j,
        {
            let e = &entries[j];
            let origin = SkillOrigin {
                agent: agent.clone(),
                path: e.path.clone(),
                sha256: e.sha256.clone(),
            };
            let ghost fj = f0 + tag_origins(*agent, entries@).take(j as int);
            let ghost fk = f0 + tag_origins(*agent, entries@).take(j + 1);
            proof {
                assert(fk =~= fj.push((e.name@, origin)));
                assert(fk.drop_last() =~= fj);
            }
            let ghost before = grouped@;
            let mut list = match grouped.remove(e.name.as_str()) {
                Some(l) => l,
                None => Vec::new(),
            };
            proof {
                if !before.dom().contains(e.name@) {
                    assert(!has_skill(fj, e.name@));
                    lemma_named_absent(fj, e.name@);
                    assert(list@ =~= named_s(fj, e.name@));
                }
            }
            list.push(origin);
            grouped.insert(e.name.clone(), list);
            proof {
                assert forall|n: Seq<char>| #[trigger] grouped@.dom().contains(n) <==> has_skill(fk, n) by {
                    if has_skill(fk, n) && n != e.name@ {
                        let q = choose|q: int| 0 <= q < fk.len() && #[trigger] fk[q].0 == n;
                        assert(q < fj.len());
                        assert(fj[q] == fk[q]);
                    }
                    if has_skill(fj, n) {
                        let q = choose|q: int| 0 <= q < fj.len() && #[trigger] fj[q].0 == n;
                        assert(fk[q] == fj[q]);
                    }
                    assert(fk[fj.len() as int].0 == e.name@);
                }
            }
            j += 1;
        }
        proof {
            assert(tag_origins(*agent, entries@).take(entries@.len() as int) =~= tag_origins(
                *agent,
                entries@,
            ));
            lemma_found_step(sources@, i as int);
        }
        i += 1;
    }
    proof {
        assert(sources@.take(sources@.len() as int) =~= sources@);
        use_type_invariant(&grouped);
        grouped.lemma_inv();
    }
    let mut items: Vec<SkillPlanItem> = Vec::new();
    let mut p: usize = 0;
    while p < grouped.len()
        invariant
            p <= grouped.entries().len(),
            items@.len() == p,
            all == found_s(sources@),
            keys_increasing(grouped.entries()),
            forall|n: Seq<char>| #[trigger] grouped@.dom().contains(n) <==> has_skill(all, n),
            forall|n: Seq<char>| #[trigger] grouped@.dom().contains(n) ==> grouped@[n]@ == named_s(all, n),
            forall|n: Seq<char>|
                #[trigger] canon@.dom().contains(n) <==> canon_sha_s(canonical@, n) is Some,
            forall|n: Seq<char>|
                #[trigger] canon@.dom().contains(n) ==> Some(canon@[n]@) == canon_sha_s(canonical@, n),
            forall|q: int|
                0 <= q < p ==> #[trigger] items@[q].name@ == grouped.entries()[q].0@ && item_ok(
                    items@[q],
                    canonical_root@,
                    all,
                    canonical@,
                ),
        decreases grouped.entries().len() - p,
    {
        let name = grouped.key_at(p);
        let origins = grouped.value_at(p);
        proof {
            crate::smap::lemma_get_at(grouped.entries(), p as int);
            assert(grouped@.dom().contains(name@));
            assert(grouped@[name@] == *origins);
        }
        let canonical_sha256 = match canon.get(name.as_str()) {
            Some(h) => Some(h.clone()),
            None => None,
        };
        proof {
            if canon@.dom().contains(name@) {
                assert(otext(canonical_sha256) == canon_sha_s(canonical@, name@));
            }
        }
        let conflict = copies_differ(origins, &canonical_sha256);
        let decision = if conflict {
            SkillPlanDecision::Conflict
        } else if canonical_sha256.is_some() {
            SkillPlanDecision::AlreadyCanonical
        } else {
            SkillPlanDecision::Add
        };
        let sorted = sort_origins(dup_origins(origins));
        let item = SkillPlanItem {
            name: name.clone(),
            destination: join(canonical_root, name.as_str()),
            canonical_sha256,
            sources: sorted,
            decision,
        };
        items.push(item);
        p += 1;
    }
    proof {
        assert forall|q: int| 0 <= q < items@.len() implies has_skill(all, #[trigger] items@[q].name@)
            && item_ok(items@[q], canonical_root@, all, canonical@) by {
            crate::smap::lemma_get_at(grouped.entries(), q);
            assert(grouped@.dom().contains(grouped.entries()[q].0@));
        }
        assert forall|a: int, b: int| 0 <= a < b < items@.len() implies lt_s(
            #[trigger] items@[a].name@,
            #[trigger] items@[b].name@,
        ) by {
            assert(lt_s(grouped.entries()[a].0@, grouped.entries()[b].0@));
        }
        assert forall|n: Seq<char>| has_skill(all, n) implies exists|q: int|
            0 <= q < items@.len() && #[trigger] items@[q].name@ == n by {
            assert(grouped@.dom().contains(n));
            crate::smap::lemma_get_found(grouped.entries(), n);
            let q = choose|q: int|
                0 <= q < grouped.entries().len() && grouped.entries()[q].0@ == n
                    && grouped.entries()[q].1 == get_s(grouped.entries(), n)->0;
            assert(items@[q].name@ == grouped.entries()[q].0@);
        }
    }
    SkillMigrationPlan { canonical_root: canonical_root.to_owned(), items }
}

/// A Skill with no origin has an empty list of them.
proof fn lemma_named_absent(f: Seq<(Seq<char>, SkillOrigin)>, n: Seq<char>)
    requires
        !has_skill(f, n),
    ensures
        named_s(f, n) == Seq::<SkillOrigin>::empty(),
    decreases f.len(),
{
    if f.len() > 0 {
        assert(f[f.len() - 1].0 != n);
        assert(!has_skill(f.drop_last(), n)) by {
            if has_skill(f.drop_last(), n) {
                let q = choose|q: int| 0 <= q < f.drop_last().len() && #[trigger] f.drop_last()[q].0 == n;
                assert(f[q] == f.drop_last()[q]);
            }
        }
        lemma_named_absent(f.drop_last(), n);
    }
}

/// Whether any item of the plan is a conflict.
pub fn has_conflict(plan: &SkillMigrationPlan) -> (b: bool)
    ensures
        b == exists|i: int|
            0 <= i < plan.items@.len() && #[trigger] plan.items@[i].decision == SkillPlanDecision::Conflict,
{
    let mut i: usize = 0;
    while i < plan.items.len()
        invariant
            i <= plan.items@.len(),
            forall|k: int| 0 <= k < i ==> #[trigger] plan.items@[k].decision != SkillPlanDecision::Conflict,
        decreases plan.items@.len() - i,
    {
        if plan.items[i].decision == SkillPlanDecision::Conflict {
            return true;
        }
        i += 1;
    }
    false
}

/// `shared::canonical_skills_root`: `~/.agents/skills`, or an error when the
/// home directory is unknown.
pub fn canonical_skills_root() -> (r: Result<String, String>)
    ensures
        match r {
            Ok(p) => exists|h: Seq<char>| p@ == join_s(h, ".agents/skills"@),
            Err(m) => m@ == "home directory is unavailable"@,
        },
{
    match crate::paths::home_dir_text() {
        Some(h) => Ok(skills_root_in(h.as_str())),
        None => Err("home directory is unavailable".to_owned()),
    }
}

/// The shared Skills root below a home directory.
pub fn skills_root_in(home: &str) -> (p: String)
    ensures
        p@ == join_s(home@, ".agents/skills"@),
{
    join(home, ".agents/skills")
}

/// Where each agent keeps its personal Skills, in agent order.
pub fn shared_skill_sources(home: &str) -> (v: Vec<SkillSource>)
    ensures
        v@.len() == 3,
        v@[0].agent@ == "codex"@ && v@[0].root@ == join_s(home@, ".codex/skills"@),
        v@[1].agent@ == "hermes"@ && v@[1].root@ == join_s(home@, ".hermes/skills/local"@),
        v@[2].agent@ == "openclaw"@ && v@[2].root@ == join_s(home@, ".openclaw/skills"@),
{
    vec![
        SkillSource { agent: "codex".to_owned(), root: join(home, ".codex/skills") },
        SkillSource { agent: "hermes".to_owned(), root: join(home, ".hermes/skills/local") },
        SkillSource { agent: "openclaw".to_owned(), root: join(home, ".openclaw/skills") },
    ]
}

/// Whether a directory entry is a Skill: a directory other than `.system`
/// that holds a `SKILL.md` file.
pub fn is_skill_dir(name: &str, is_dir: bool, has_skill_md: bool) -> (b: bool)
    ensures
        b == (name@ != ".system"@ && is_dir && has_skill_md),
{
    !str_is(name, ".system") && is_dir && has_skill_md
}

/// Entries in name order.
pub open spec fn names_sorted(s: Seq<SkillInventoryEntry>) -> bool {
    forall|i: int, j: int| 0 <= i < j < s.len() ==> !lt_s(#[trigger] s[j].name@, #[trigger] s[i].name@)
}

/// `inventory_skills`' last step: the entries in name order (entries of
/// equal names keep their order).
pub fn sort_inventory(v: Vec<SkillInventoryEntry>) -> (r: Vec<SkillInventoryEntry>)
    ensures
        names_sorted(r@),
        r@.to_multiset() == v@.to_multiset(),
{
    let mut out: Vec<SkillInventoryEntry> = Vec::new();
    let mut rest = v;
    let ghost all = rest@;
    let ghost mut taken: int = 0;
    proof {
        assert(all.take(0) =~= Seq::<SkillInventoryEntry>::empty());
        assert(all.skip(0) =~= all);
    }
    while rest.len() > 0
        invariant
            0 <= taken <= all.len(),
            taken + rest@.len() == all.len(),
            rest@ == all.skip(taken),
            names_sorted(out@),
            out@.to_multiset() == all.take(taken).to_multiset(),
        decreases rest@.len(),
    {
        let x = rest.remove(0);
        proof {
            assert(x == all[taken]);
            assert(rest@ =~= all.skip(taken + 1));
        }
        let mut p: usize = 0;
        while p < out.len() && !str_precedes(x.name.as_str(), out[p].name.as_str())
            invariant
                p <= out@.len(),
                forall|k: int| 0 <= k < p ==> !lt_s(x.name@, #[trigger] out@[k].name@),
            decreases out@.len() - p,
        {
            p += 1;
        }
        let ghost before = out@;
        let ghost xv = x;
        out.insert(p, x);
        proof {
            assert forall|i: int, j: int| 0 <= i < j < out@.len() implies !lt_s(
                #[trigger] out@[j].name@,
                #[trigger] out@[i].name@,
            ) by {
                if i < p && j > p {
                    assert(out@[i] == before[i] && out@[j] == before[j - 1]);
                } else if i < p && j == p {
                    assert(out@[i] == before[i]);
                } else if i == p && j > p {
                    assert(out@[j] == before[j - 1]);
                    lemma_lt_asym(xv.name@, before[p as int].name@);
                    if lt_s(before[j - 1].name@, xv.name@) {
                        lemma_lt_trans(before[j - 1].name@, xv.name@, before[p as int].name@);
                    }
                    if j - 1 > p {
                        assert(!lt_s(before[j - 1].name@, before[p as int].name@));
                    }
                } else if i > p {
                    assert(out@[i] == before[i - 1] && out@[j] == before[j - 1]);
                } else {
                    assert(out@[i] == before[i] && out@[j] == before[j]);
                }
            }
            vstd::seq_lib::to_multiset_insert(before, p as int, xv);
            assert(all.take(taken + 1) =~= all.take(taken).push(xv));
            vstd::seq_lib::to_multiset_build(all.take(taken), xv);
            taken = taken + 1;
        }
    }
    proof {
        assert(all.take(taken) =~= all);
    }
    out
}

/// The names of the items in conflict, in plan order.
pub open spec fn conflict_names(items: Seq<SkillPlanItem>) -> Seq<Seq<char>>
    decreases items.len(),
{
    if items.len() == 0 {
        Seq::empty()
    } else {
        let rest = conflict_names(items.drop_last());
        if items.last().decision == SkillPlanDecision::Conflict {
            rest.push(items.last().name@)
        } else {
            rest
        }
    }
}

/// The path of the first copy of each item to add, in plan order; an item
/// to add without a copy is an error.
pub open spec fn add_sources(items: Seq<SkillPlanItem>) -> Result<Seq<Seq<char>>, HkErrorV>
    decreases items.len(),
{
    if items.len() == 0 {
        Ok(Seq::empty())
    } else {
        match add_sources(items.drop_last()) {
            Err(e) => Err(e),
            Ok(ps) => {
                let it = items.last();
                if it.decision != SkillPlanDecision::Add {
                    Ok(ps)
                } else if it.sources@.len() == 0 {
                    Err(HkErrorV::Internal("Skill "@ + it.name@ + " has no source"@))
                } else {
                    Ok(ps.push(it.sources@[0].path@))
                }
            },
        }
    }
}

/// What `apply_skills_migration` copies into the shared root: refused while
/// any name is in conflict, else the first copy of each Skill to add.
pub open spec fn migration_s(plan: SkillMigrationPlan) -> Result<Seq<Seq<char>>, HkErrorV> {
    let c = conflict_names(plan.items@);
    if c.len() > 0 {
        Err(HkErrorV::Conflict("resolve shared Skill conflicts first: "@ + join_text_s(c, ", "@)))
    } else {
        add_sources(plan.items@)
    }
}

/// `apply_skills_migration` before any file is copied: the Skill
/// directories to deploy into the shared root, in plan order.
pub fn migration_sources(plan: &SkillMigrationPlan) -> (r: Result<Vec<String>, HkError>)
    ensures
        match migration_s(*plan) {
            Ok(ps) => r matches Ok(v) && strs(v@) == ps,
            Err(e) => r matches Err(x) && x@ == e,
        },
{
    let mut names: Vec<String> = Vec::new();
    let mut i: usize = 0;
    while i < plan.items.len()
        invariant
            i <= plan.items@.len(),
            strs(names@) == conflict_names(plan.items@.take(i as int)),
        decreases plan.items@.len() - i,
    {
        proof {
            assert(plan.items@.take(i + 1).drop_last() =~= plan.items@.take(i as int));
            assert(plan.items@.take(i + 1).last() == plan.items@[i as int]);
        }
        if plan.items[i].decision == SkillPlanDecision::Conflict {
            let ghost before = strs(names@);
            names.push(plan.items[i].name.clone());
            proof {
                assert(strs(names@) =~= before.push(plan.items@[i as int].name@));
            }
        }
        i += 1;
    }
    proof {
        assert(plan.items@.take(i as int) =~= plan.items@);
    }
    if names.len() > 0 {
        let mut m = "resolve shared Skill conflicts first: ".to_owned();
        let j = join_text(&names, ", ");
        push_str(&mut m, j.as_str());
        return Err(HkError::Conflict(m));
    }
    let mut out: Vec<String> = Vec::new();
    let mut k: usize = 0;
    proof {
        assert(strs(out@) =~= Seq::<Seq<char>>::empty());
    }
    while k < plan.items.len()
        invariant
            k <= plan.items@.len(),
            conflict_names(plan.items@).len() == 0,
            add_sources(plan.items@.take(k as int)) == Ok::<Seq<Seq<char>>, HkErrorV>(strs(out@)),
        decreases plan.items@.len() - k,
    {
        proof {
            assert(plan.items@.take(k + 1).drop_last() =~= plan.items@.take(k as int));
            assert(plan.items@.take(k + 1).last() == plan.items@[k as int]);
        }
        let item = &plan.items[k];
        if item.decision == SkillPlanDecision::Add {
            if item.sources.len() == 0 {
                proof {
                    let t = plan.items@.take(k + 1);
                    assert(t.last().sources@.len() == 0);
                    assert(t.last().decision == SkillPlanDecision::Add);
                    assert(add_sources(t) == Err::<Seq<Seq<char>>, HkErrorV>(
                        HkErrorV::Internal("Skill "@ + item.name@ + " has no source"@),
                    ));
                    lemma_add_stop(plan.items@, k as int + 1);
                }
                let mut m = "Skill ".to_owned();
                push_str(&mut m, item.name.as_str());
                push_str(&mut m, " has no source");
                return Err(HkError::Internal(m));
            }
            let ghost before = strs(out@);
            out.push(item.sources[0].path.clone());
            proof {
                assert(strs(out@) =~= before.push(item.sources@[0].path@));
            }
        }
        k += 1;
    }
    proof {
        assert(plan.items@.take(k as int) =~= plan.items@);
    }
    Ok(out)
}

/// An item to add without a copy stops the whole list.
proof fn lemma_add_stop(items: Seq<SkillPlanItem>, n: int)
    requires
        1 <= n <= items.len(),
        add_sources(items.take(n)) is Err,
    ensures
        add_sources(items) == add_sources(items.take(n)),
    decreases items.len() - n,
{
    if n < items.len() {
        assert(items.take(n + 1).drop_last() =~= items.take(n));
        lemma_add_stop(items, n + 1);
    } else {
        assert(items.take(n) =~= items);
    }
}

/// Each path `add_sources` gives is the first copy of an item to add.
proof fn lemma_add_sources_from(items: Seq<SkillPlanItem>, m: int) -> (k: int)
    requires
        add_sources(items) is Ok,
        0 <= m < add_sources(items)->Ok_0.len(),
    ensures
        0 <= k < items.len(),
        items[k].decision == SkillPlanDecision::Add,
        items[k].sources@.len() > 0,
        add_sources(items)->Ok_0[m] == items[k].sources@[0].path@,
    decreases items.len(),
{
    let ps = add_sources(items.drop_last())->Ok_0;
    let it = items.last();
    if it.decision == SkillPlanDecision::Add && m == ps.len() {
        (items.len() - 1) as int
    } else {
        let k = lemma_add_sources_from(items.drop_last(), m);
        assert(items.drop_last()[k] == items[k]);
        k
    }
}

/// A plan with an item in conflict names some conflict.
proof fn lemma_conflict_named(items: Seq<SkillPlanItem>, k: int)
    requires
        0 <= k < items.len(),
        items[k].decision == SkillPlanDecision::Conflict,
    ensures
        conflict_names(items).len() > 0,
    decreases items.len(),
{
    if k < items.len() - 1 {
        assert(items.drop_last()[k] == items[k]);
        lemma_conflict_named(items.drop_last(), k);
    }
}

/// A migration never overwrites nor picks between copies: of a plan made
/// from the personal Skills `f` and the shared root's inventory `c`, the
/// migration copies only Skills the shared root lacks, all of whose copies
/// are identical, and each from its first copy.
pub proof fn law_migration_copies_only_new_agreed_skills(
    plan: SkillMigrationPlan,
    f: Seq<(Seq<char>, SkillOrigin)>,
    c: Seq<SkillInventoryEntry>,
)
    requires
        forall|i: int| 0 <= i < plan.items@.len() ==> item_ok(#[trigger] plan.items@[i], plan.canonical_root@, f, c),
        migration_s(plan) is Ok,
    ensures
        forall|m: int|
            0 <= m < migration_s(plan)->Ok_0.len() ==> exists|k: int|
                0 <= k < plan.items@.len() && plan.items@[k].sources@.len() > 0
                    && #[trigger] migration_s(plan)->Ok_0[m] == plan.items@[k].sources@[0].path@
                    && canon_sha_s(c, plan.items@[k].name@) is None && !mixed(
                    hashes_s(named_s(f, plan.items@[k].name@), None),
                ),
{
    let ps = migration_s(plan)->Ok_0;
    assert forall|m: int| 0 <= m < ps.len() implies exists|k: int|
        0 <= k < plan.items@.len() && plan.items@[k].sources@.len() > 0 && #[trigger] ps[m]
            == plan.items@[k].sources@[0].path@ && canon_sha_s(c, plan.items@[k].name@) is None
            && !mixed(hashes_s(named_s(f, plan.items@[k].name@), None)) by {
        let k = lemma_add_sources_from(plan.items@, m);
        assert(item_ok(plan.items@[k], plan.canonical_root@, f, c));
    }
}

/// While any Skill name is in conflict, a migration copies nothing.
pub proof fn law_conflict_blocks_migration(plan: SkillMigrationPlan, k: int)
    requires
        0 <= k < plan.items@.len(),
        plan.items@[k].decision == SkillPlanDecision::Conflict,
    ensures
        migration_s(plan) is Err,
{
    lemma_conflict_named(plan.items@, k);
}

} // verus!
