//! The plan of the build tool: every plugin source is built for the sandbox,
//! and, on request, for each platform of a fixed list. Builds are
//! independent; a failed one is reported and the others still run.
use vstd::prelude::*;

verus! {

/// The target of the sandbox binary that the host loads.
pub open spec fn sandbox_target() -> Seq<char> {
    "wasm32-wasi"@
}

/// The platforms that distributable native builds are made for.
pub open spec fn native_targets() -> Seq<Seq<char>> {
    seq![
        "x86_64-unknown-linux-gnu"@,
        "aarch64-unknown-linux-gnu"@,
        "x86_64-apple-darwin"@,
        "x86_64-pc-windows-msvc"@,
    ]
}

/// The targets each plugin is built for.
pub open spec fn plan_targets(cross: bool) -> Seq<Seq<char>> {
    if cross {
        seq![sandbox_target()] + native_targets()
    } else {
        seq![sandbox_target()]
    }
}

/// One build: a plugin source directory and a target triple.
pub struct BuildJob {
    pub plugin: String,
    pub target: String,
}

pub open spec fn job_view(j: BuildJob) -> (Seq<char>, Seq<char>) {
    (j.plugin@, j.target@)
}

/// The builds of one plugin, in target order.
pub open spec fn jobs_for(p: Seq<char>, cross: bool) -> Seq<(Seq<char>, Seq<char>)> {
    plan_targets(cross).map_values(|t: Seq<char>| (p, t))
}

/// The builds of all plugins: each plugin's builds, plugin after plugin.
pub open spec fn plan(ps: Seq<Seq<char>>, cross: bool) -> Seq<(Seq<char>, Seq<char>)>
    decreases ps.len(),
{
    if ps.len() == 0 {
        Seq::empty()
    } else {
        plan(ps.drop_last(), cross) + jobs_for(ps.last(), cross)
    }
}

/// A plan has one build per plugin and target.
pub proof fn lemma_plan_len(ps: Seq<Seq<char>>, cross: bool)
    ensures
        plan(ps, cross).len() == ps.len() * plan_targets(cross).len(),
    decreases ps.len(),
{
    if ps.len() > 0 {
        lemma_plan_len(ps.drop_last(), cross);
        let k = plan_targets(cross).len();
        let n = ps.len();
        assert((n - 1) * k + k == n * k) by (nonlinear_arith);
    }
}

/// The target triples, in build order.
pub fn targets(cross: bool) -> (r: Vec<String>)
    ensures
        r@.map_values(|s: String| s@) == plan_targets(cross),
{
    let mut r: Vec<String> = Vec::new();
    r.push("wasm32-wasi".to_owned());
    if cross {
        r.push("x86_64-unknown-linux-gnu".to_owned());
        r.push("aarch64-unknown-linux-gnu".to_owned());
        r.push("x86_64-apple-darwin".to_owned());
        r.push("x86_64-pc-windows-msvc".to_owned());
    }
    assert(r@.map_values(|s: String| s@) =~= plan_targets(cross));
    r
}

/// The builds to run for `plugins`; with `cross`, the native platforms too.
pub fn build_plan(plugins: &Vec<String>, cross: bool) -> (r: Vec<BuildJob>)
    ensures
        r@.map_values(|j: BuildJob| job_view(j)) == plan(
            plugins@.map_values(|s: String| s@),
            cross,
        ),
        r@.len() == plugins@.len() * plan_targets(cross).len(),
{
    let ts = targets(cross);
    let ghost ps = plugins@.map_values(|s: String| s@);
    let ghost tv = plan_targets(cross);
    let mut r: Vec<BuildJob> = Vec::new();
    let mut i: usize = 0;
    while i < plugins.len()
        invariant
            i <= plugins@.len(),
            ps == plugins@.map_values(|s: String| s@),
            tv == plan_targets(cross),
            ts@.map_values(|s: String| s@) == tv,
            r@.map_values(|j: BuildJob| job_view(j)) == plan(ps.take(i as int), cross),
        decreases plugins@.len() - i,
    {
        let ghost start = r@.map_values(|j: BuildJob| job_view(j));
        let mut t: usize = 0;
        while t < ts.len()
            invariant
                i < plugins@.len(),
                t <= ts@.len(),
                ps == plugins@.map_values(|s: String| s@),
                ts@.map_values(|s: String| s@) == tv,
                tv == plan_targets(cross),
                r@.map_values(|j: BuildJob| job_view(j)) == start + jobs_for(
                    ps[i as int],
                    cross,
                ).take(t as int),
            decreases ts@.len() - t,
        {
            let job = BuildJob { plugin: plugins[i].clone(), target: ts[t].clone() };
            let ghost before = r@;
            r.push(job);
            proof {
                assert(job_view(job) == (ps[i as int], tv[t as int]));
                assert(r@.map_values(|j: BuildJob| job_view(j)) =~= before.map_values(
                    |j: BuildJob| job_view(j),
                ).push(job_view(job)));
                assert(ts@.map_values(|s: String| s@)[t as int] == tv[t as int]);
                assert(jobs_for(ps[i as int], cross).take(t + 1) =~= jobs_for(
                    ps[i as int],
                    cross,
                ).take(t as int).push((ps[i as int], tv[t as int])));
                assert(r@.map_values(|j: BuildJob| job_view(j)) =~= start + jobs_for(
                    ps[i as int],
                    cross,
                ).take(t + 1));
            }
            t = t + 1;
        }
        proof {
            assert(jobs_for(ps[i as int], cross).take(t as int) =~= jobs_for(ps[i as int], cross));
            assert(ps.take(i + 1).drop_last() =~= ps.take(i as int));
            assert(ps.take(i + 1).last() == ps[i as int]);
        }
        i = i + 1;
    }
    proof {
        assert(ps.take(i as int) =~= ps);
        lemma_plan_len(ps, cross);
    }
    r
}

/// The positions of the builds that failed, in order; `ok[i]` tells whether
/// build `i` succeeded.
pub fn failed_builds(ok: &Vec<bool>) -> (r: Vec<usize>)
    ensures
        forall|k: int| 0 <= k < r@.len() ==> r@[k] < ok@.len() && !ok@[r@[k] as int],
        forall|i: int| 0 <= i < ok@.len() && !ok@[i] ==> r@.contains(i as usize),
        forall|a: int, b: int| 0 <= a < b < r@.len() ==> r@[a] < r@[b],
{
    let mut r: Vec<usize> = Vec::new();
    let mut i: usize = 0;
    while i < ok.len()
        invariant
            i <= ok@.len(),
            forall|k: int| 0 <= k < r@.len() ==> r@[k] < i && !ok@[r@[k] as int],
            forall|j: int| 0 <= j < i && !ok@[j] ==> r@.contains(j as usize),
            forall|a: int, b: int| 0 <= a < b < r@.len() ==> r@[a] < r@[b],
        decreases ok@.len() - i,
    {
        if !ok[i] {
            let ghost before = r@;
            r.push(i);
            proof {
                assert forall|j: int| 0 <= j < i + 1 && !ok@[j] implies r@.contains(
                    j as usize,
                ) by {
                    if j < i {
                        let k = choose|k: int| 0 <= k < before.len() && before[k] == j as usize;
                        assert(r@[k] == j as usize);
                    } else {
                        assert(r@[r@.len() - 1] == j as usize);
                    }
                }
            }
        }
        i = i + 1;
    }
    r
}

} // verus!
