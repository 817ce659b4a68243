//! What holds of every deployment of a script.

use vstd::prelude::*;
use crate::error::CommandFault;
use crate::graph::Graph;
use crate::grows::{extends, lemma_bind_extends, lemma_extends_trans, lemma_put_extends};
use crate::script::{deploy, deploy_one, resolve, stored, Step};
use crate::text::pieces;
use crate::token::{call_of, data_of};

verus! {

/// `b` has every variable of `a`, each with the vertex it has in `a`.
pub open spec fn keeps_vars(a: Map<Seq<char>, u32>, b: Map<Seq<char>, u32>) -> bool {
    forall|name: Seq<char>| #[trigger] a.contains_key(name) ==> b.contains_key(name) && b[name] == a[name]
}

/// What holds of a command, carried out or not: the graph is well formed and
/// has all the vertices and edges it had, every variable stands for the vertex
/// it stood for, and a command that fails leaves the graph as it was.
pub open spec fn orderly(g: Graph, vars: Map<Seq<char>, u32>, s: Step) -> bool {
    &&& s.graph.wf()
    &&& extends(g, s.graph)
    &&& keeps_vars(vars, s.vars)
    &&& s.result is Err ==> s.graph == g
}

proof fn lemma_stored(g: Graph, r: Result<Graph, crate::error::StoreError>, vars: Map<Seq<char>, u32>)
    requires
        g.wf(),
        r is Ok ==> r->Ok_0.wf() && extends(g, r->Ok_0),
    ensures
        orderly(g, vars, stored(r, g, vars)),
{
}

/// A command keeps the graph in order and the variables as they stand.
pub proof fn lemma_deploy_one_orderly(cmd: Seq<char>, vars: Map<Seq<char>, u32>, root: u32, g: Graph)
    requires
        g.wf(),
    ensures
        orderly(g, vars, deploy_one(cmd, vars, root, g)),
{
    if call_of(cmd) is Some {
        let (name, body) = call_of(cmd)->Some_0;
        let args = pieces(body, ',');
        if name == "ADD"@ {
            if args.len() >= 1 {
                let v = resolve(args[0], vars, root, g);
                if v.vertex is Ok {
                    let id = v.vertex->Ok_0;
                    if g.add(id) is Ok {
                        g.lemma_add_wf(id);
                    }
                    lemma_stored(g, g.add(id), v.vars);
                }
            }
        } else if name == "BIND"@ {
            if args.len() >= 3 {
                let v1 = resolve(args[0], vars, root, g);
                if v1.vertex is Ok {
                    let v2 = resolve(args[1], v1.vars, root, g);
                    if v2.vertex is Ok {
                        let r = g.bind(v1.vertex->Ok_0, v2.vertex->Ok_0, args[2]);
                        if r is Ok {
                            lemma_bind_extends(g, v1.vertex->Ok_0, v2.vertex->Ok_0, args[2]);
                        }
                        lemma_stored(g, r, v2.vars);
                    }
                }
            }
        } else if name == "PUT"@ {
            if args.len() >= 2 {
                let v = resolve(args[0], vars, root, g);
                if v.vertex is Ok && data_of(args[1]) is Some {
                    let d = data_of(args[1])->Some_0;
                    if g.put(v.vertex->Ok_0, d) is Ok {
                        lemma_put_extends(g, v.vertex->Ok_0, d);
                    }
                    lemma_stored(g, g.put(v.vertex->Ok_0, d), v.vars);
                }
            }
        }
    }
}

/// A deployment deletes nothing and gives no variable another vertex: the
/// graph is well formed afterwards and has all the vertices and edges it had,
/// and every variable stands for the vertex it stood for. It stops before the
/// end of the commands just when a command fails.
pub proof fn lemma_deploy_orderly(
    cmds: Seq<Seq<char>>,
    i: nat,
    vars: Map<Seq<char>, u32>,
    root: u32,
    g: Graph,
)
    requires
        g.wf(),
        i <= cmds.len(),
    ensures
        deploy(cmds, i, vars, root, g).graph.wf(),
        extends(g, deploy(cmds, i, vars, root, g).graph),
        keeps_vars(vars, deploy(cmds, i, vars, root, g).vars),
        i <= deploy(cmds, i, vars, root, g).done <= cmds.len(),
        deploy(cmds, i, vars, root, g).fault is None <==> deploy(cmds, i, vars, root, g).done
            == cmds.len(),
    decreases cmds.len() - i,
{
    if i < cmds.len() {
        let s = deploy_one(cmds[i as int], vars, root, g);
        lemma_deploy_one_orderly(cmds[i as int], vars, root, g);
        if s.result is Ok {
            let d = deploy(cmds, i + 1, s.vars, root, s.graph);
            lemma_deploy_orderly(cmds, i + 1, s.vars, root, s.graph);
            lemma_extends_trans(g, s.graph, d.graph);
            assert forall|name: Seq<char>| #[trigger] vars.contains_key(name) implies d.vars.contains_key(
                name,
            ) && d.vars[name] == vars[name] by {
                assert(s.vars.contains_key(name));
            }
        }
    }
}

/// A deployment that fails has carried out the commands before the one that
/// failed, all of them and as if the script had ended there, and holds the
/// graph they made; the command that failed is the next.
pub proof fn lemma_deploy_fails_fast(
    cmds: Seq<Seq<char>>,
    i: nat,
    vars: Map<Seq<char>, u32>,
    root: u32,
    g: Graph,
)
    requires
        g.wf(),
        i <= cmds.len(),
        deploy(cmds, i, vars, root, g).fault is Some,
    ensures
        ({
            let d = deploy(cmds, i, vars, root, g);
            let before = deploy(cmds.take(d.done as int), i, vars, root, g);
            let failed = deploy_one(cmds[d.done as int], before.vars, root, before.graph);
            &&& i <= d.done < cmds.len()
            &&& before.fault is None
            &&& before.done == d.done
            &&& before.graph == d.graph
            &&& failed.result == Err::<(), CommandFault>(d.fault->Some_0)
            &&& failed.vars == d.vars
        }),
    decreases cmds.len() - i,
{
    let d = deploy(cmds, i, vars, root, g);
    let s = deploy_one(cmds[i as int], vars, root, g);
    lemma_deploy_one_orderly(cmds[i as int], vars, root, g);
    if s.result is Ok {
        lemma_deploy_fails_fast(cmds, i + 1, s.vars, root, s.graph);
        let part = cmds.take(d.done as int);
        assert(part[i as int] == cmds[i as int]);
        assert(deploy(part, i, vars, root, g) == deploy(part, i + 1, s.vars, root, s.graph));
    }
}

} // verus!
