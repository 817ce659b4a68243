//! Scripts: texts of commands that build a graph, and what their commands
//! mean.

use vstd::prelude::*;
use crate::error::{CommandError, CommandFault, ScriptError, StoreError};
use crate::graph::Graph;
use crate::store::Sodg;
use crate::text::{
    cut, is_word, lemma_pieces_tidy, lemma_uncommented_clean, pieces, same, slice,
    strip_comments, text_of, to_chars, tidy, uncommented, views,
};
use crate::token::{call_of, data_of, number_of, parse_call, parse_number};

verus! {

/// A vertex that an argument stands for, and the variables as they are when
/// it is known.
pub struct Resolved {
    pub vars: Map<Seq<char>, u32>,
    pub vertex: Result<u32, CommandFault>,
}

/// What one command made of the graph and of the variables, and whether it
/// was carried out.
pub struct Step {
    pub graph: Graph,
    pub vars: Map<Seq<char>, u32>,
    pub result: Result<(), CommandFault>,
}

/// What a deployment made of the graph and of the variables, how many
/// commands it carried out, and why it stopped at the next, if it did.
pub struct Deployed {
    pub graph: Graph,
    pub vars: Map<Seq<char>, u32>,
    pub done: nat,
    pub fault: Option<CommandFault>,
}

/// The commands of a script: its text without the comments, cut at the
/// semicolons, each part without the white space around it, the empty parts
/// left out.
pub open spec fn commands(text: Seq<char>) -> Seq<Seq<char>> {
    pieces(uncommented(text), ';')
}

/// The vertex that `token` stands for.
///
/// Behind a `$` stands the name of a variable: it stands for the vertex it
/// was given when it first occurred, which is the least identifier above
/// those that the graph used then. Any other token is a number and stands for
/// the vertex of that number, but zero stands for `root`.
pub open spec fn resolve(token: Seq<char>, vars: Map<Seq<char>, u32>, root: u32, g: Graph) -> Resolved {
    if token.len() > 0 && token[0] == '$' {
        let name = token.skip(1);
        if vars.contains_key(name) {
            Resolved { vars, vertex: Ok(vars[name]) }
        } else {
            match g.next_id() {
                Ok(id) => Resolved { vars: vars.insert(name, id), vertex: Ok(id) },
                Err(e) => Resolved { vars, vertex: Err(CommandFault::Store(e)) },
            }
        }
    } else {
        match number_of(token) {
            Some(n) => Resolved {
                vars,
                vertex: Ok(
                    if n == 0 {
                        root
                    } else {
                        n
                    },
                ),
            },
            None => Resolved { vars, vertex: Err(CommandFault::Vertex) },
        }
    }
}

/// The step that ends with what the store made of the graph.
pub open spec fn stored(r: Result<Graph, StoreError>, g: Graph, vars: Map<Seq<char>, u32>) -> Step {
    match r {
        Ok(after) => Step { graph: after, vars, result: Ok(()) },
        Err(e) => Step { graph: g, vars, result: Err(CommandFault::Store(e)) },
    }
}

/// `ADD(v)`: the vertex `v` is added.
pub open spec fn run_add(args: Seq<Seq<char>>, vars: Map<Seq<char>, u32>, root: u32, g: Graph) -> Step {
    if args.len() < 1 {
        Step { graph: g, vars, result: Err(CommandFault::Arity) }
    } else {
        let v = resolve(args[0], vars, root, g);
        match v.vertex {
            Err(f) => Step { graph: g, vars: v.vars, result: Err(f) },
            Ok(id) => stored(g.add(id), g, v.vars),
        }
    }
}

/// `BIND(v1, v2, a)`: an edge is made from `v1` to `v2` under the label `a`.
pub open spec fn run_bind(args: Seq<Seq<char>>, vars: Map<Seq<char>, u32>, root: u32, g: Graph) -> Step {
    if args.len() < 3 {
        Step { graph: g, vars, result: Err(CommandFault::Arity) }
    } else {
        let v1 = resolve(args[0], vars, root, g);
        match v1.vertex {
            Err(f) => Step { graph: g, vars: v1.vars, result: Err(f) },
            Ok(id1) => {
                let v2 = resolve(args[1], v1.vars, root, g);
                match v2.vertex {
                    Err(f) => Step { graph: g, vars: v2.vars, result: Err(f) },
                    Ok(id2) => stored(g.bind(id1, id2, args[2]), g, v2.vars),
                }
            },
        }
    }
}

/// `PUT(v, d)`: the bytes that `d` stands for become the payload of `v`.
pub open spec fn run_put(args: Seq<Seq<char>>, vars: Map<Seq<char>, u32>, root: u32, g: Graph) -> Step {
    if args.len() < 2 {
        Step { graph: g, vars, result: Err(CommandFault::Arity) }
    } else {
        let v = resolve(args[0], vars, root, g);
        match v.vertex {
            Err(f) => Step { graph: g, vars: v.vars, result: Err(f) },
            Ok(id) => match data_of(args[1]) {
                None => Step { graph: g, vars: v.vars, result: Err(CommandFault::Data) },
                Some(d) => stored(g.put(id, d), g, v.vars),
            },
        }
    }
}

/// What the command `cmd` makes of the graph and of the variables.
///
/// Its arguments stand between its brackets, with commas between them; the
/// white space around each is taken off and the empty ones are left out. A
/// command may have more arguments than it takes.
pub open spec fn deploy_one(cmd: Seq<char>, vars: Map<Seq<char>, u32>, root: u32, g: Graph) -> Step {
    match call_of(cmd) {
        None => Step { graph: g, vars, result: Err(CommandFault::Syntax) },
        Some((name, body)) => {
            let args = pieces(body, ',');
            if name == "ADD"@ {
                run_add(args, vars, root, g)
            } else if name == "BIND"@ {
                run_bind(args, vars, root, g)
            } else if name == "PUT"@ {
                run_put(args, vars, root, g)
            } else {
                Step { graph: g, vars, result: Err(CommandFault::Unknown(name)) }
            }
        },
    }
}

/// What the commands `cmds` from the `i`-th on make of the graph and of the
/// variables, one after the other, up to the first that is not carried out.
pub open spec fn deploy(
    cmds: Seq<Seq<char>>,
    i: nat,
    vars: Map<Seq<char>, u32>,
    root: u32,
    g: Graph,
) -> Deployed
    decreases cmds.len() - i,
{
    if i >= cmds.len() {
        Deployed { graph: g, vars, done: i, fault: None }
    } else {
        let s = deploy_one(cmds[i as int], vars, root, g);
        match s.result {
            Err(f) => Deployed { graph: s.graph, vars: s.vars, done: i, fault: Some(f) },
            Ok(()) => deploy(cmds, i + 1, s.vars, root, s.graph),
        }
    }
}

/// No command of a script is empty, has white space around it, or holds a
/// semicolon or a `#`: a comment is no command, nor part of one.
pub proof fn lemma_commands_tidy(text: Seq<char>)
    ensures
        forall|k: int|
            0 <= k < commands(text).len() ==> tidy(#[trigger] commands(text)[k], ';', '#'),
{
    lemma_uncommented_clean(text);
    lemma_pieces_tidy(uncommented(text), ';', '#');
}

struct Var {
    name: Vec<char>,
    id: u32,
}

/// A text of commands that build a graph, with the variables it has given a
/// vertex to, and the vertex that the number zero stands for.
pub struct Script {
    txt: String,
    vars: Vec<Var>,
    root: u32,
}

spec fn table(vars: Seq<Var>) -> Map<Seq<char>, u32>
    decreases vars.len(),
{
    if vars.len() == 0 {
        Map::empty()
    } else {
        table(vars.drop_last()).insert(vars.last().name@, vars.last().id)
    }
}

impl Script {
    /// The text of the script.
    pub closed spec fn text(&self) -> Seq<char> {
        self.txt@
    }

    /// The vertex that the number zero stands for.
    pub closed spec fn root(&self) -> u32 {
        self.root
    }

    /// The variables that have a vertex, each with its vertex.
    pub closed spec fn vars(&self) -> Map<Seq<char>, u32> {
        table(self.vars@)
    }

    /// A script of the text `s`, with no variable yet, in which zero stands
    /// for the vertex zero.
    pub fn from_str(s: &str) -> (r: Script)
        ensures
            r.text() == s@,
            r.vars() == Map::<Seq<char>, u32>::empty(),
            r.root() == 0,
    {
        Script { txt: s.to_owned(), vars: Vec::new(), root: 0 }
    }

    /// Makes zero stand for the vertex `v`.
    pub fn set_root(&mut self, v: u32)
        ensures
            final(self).root() == v,
            final(self).text() == old(self).text(),
            final(self).vars() == old(self).vars(),
    {
        self.root = v;
    }

    /// Carries out the commands of the script on `g`, one after the other,
    /// and stops at the first that fails: the graph and the variables keep
    /// what the commands before it made of them. Gives the number of
    /// commands, or the command that failed.
    pub fn deploy_to(&mut self, g: &mut Sodg) -> (r: Result<usize, ScriptError>)
        requires
            old(g).wf(),
        ensures
            final(g).wf(),
            final(self).text() == old(self).text(),
            final(self).root() == old(self).root(),
            ({
                let cmds = commands(old(self).text());
                let d = deploy(cmds, 0, old(self).vars(), old(self).root(), old(g)@);
                &&& final(g)@ == d.graph
                &&& final(self).vars() == d.vars
                &&& match r {
                    Ok(n) => d.fault is None && n == cmds.len(),
                    Err(e) => {
                        &&& d.fault == Some(e.cause@)
                        &&& d.done < cmds.len()
                        &&& e.position == d.done + 1
                        &&& e.command@ == cmds[d.done as int]
                    },
                }
            }),
    {
        let cmds = self.commands();
        let mut pos: usize = 0;
        while pos < cmds.len()
            invariant
                g.wf(),
                pos <= cmds.len(),
                views(cmds@) == commands(old(self).text()),
                self.text() == old(self).text(),
                self.root() == old(self).root(),
                deploy(views(cmds@), pos as nat, self.vars(), self.root(), g@) == deploy(
                    views(cmds@),
                    0,
                    old(self).vars(),
                    old(self).root(),
                    old(g)@,
                ),
            decreases cmds.len() - pos,
        {
            assert(views(cmds@)[pos as int] == cmds@[pos as int]@);
            match self.deploy_one(&cmds[pos], g) {
                Ok(()) => {},
                Err(cause) => {
                    let command = text_of(&cmds[pos]);
                    return Err(ScriptError { position: pos + 1, command, cause });
                },
            }
            pos += 1;
        }
        Ok(pos)
    }

    /// The commands of the script: none is empty, has white space around
    /// it, or holds a semicolon or a `#`.
    pub fn commands(&self) -> (r: Vec<Vec<char>>)
        ensures
            views(r@) == commands(self.text()),
            forall|i: int| 0 <= i < r@.len() ==> tidy((#[trigger] r@[i])@, ';', '#'),
    {
        let chars = to_chars(self.txt.as_str());
        let clean = strip_comments(&chars);
        let r = cut(&clean, ';');
        proof {
            lemma_commands_tidy(self.text());
            assert forall|i: int| 0 <= i < r@.len() implies tidy((#[trigger] r@[i])@, ';', '#') by {
                assert(views(r@)[i] == r@[i]@);
                assert(tidy(commands(self.text())[i], ';', '#'));
            }
        }
        r
    }

    /// Carries out the command `cmd` on `g`.
    pub fn deploy_one(&mut self, cmd: &Vec<char>, g: &mut Sodg) -> (r: Result<(), CommandError>)
        requires
            old(g).wf(),
        ensures
            final(g).wf(),
            final(self).text() == old(self).text(),
            final(self).root() == old(self).root(),
            final(g)@ == deploy_one(cmd@, old(self).vars(), old(self).root(), old(g)@).graph,
            final(self).vars() == deploy_one(cmd@, old(self).vars(), old(self).root(), old(g)@).vars,
            match r {
                Ok(()) => deploy_one(cmd@, old(self).vars(), old(self).root(), old(g)@).result is Ok,
                Err(e) => deploy_one(cmd@, old(self).vars(), old(self).root(), old(g)@).result == Err::<
                    (),
                    CommandFault,
                >(e@),
            },
    {
        let (name, body) = match parse_call(cmd) {
            Some(call) => call,
            None => {
                return Err(CommandError::Syntax);
            },
        };
        let args = cut(&body, ',');
        assert(forall|i: int| 0 <= i < args@.len() ==> views(args@)[i] == (#[trigger] args@[i])@);
        if is_word(&name, "ADD") {
            if args.len() < 1 {
                return Err(CommandError::Arity);
            }
            let v = match self.parse(&args[0], g) {
                Ok(v) => v,
                Err(e) => {
                    return Err(e);
                },
            };
            match g.add(v) {
                Ok(()) => Ok(()),
                Err(e) => Err(CommandError::Store(e)),
            }
        } else if is_word(&name, "BIND") {
            if args.len() < 3 {
                return Err(CommandError::Arity);
            }
            let v1 = match self.parse(&args[0], g) {
                Ok(v) => v,
                Err(e) => {
                    return Err(e);
                },
            };
            let v2 = match self.parse(&args[1], g) {
                Ok(v) => v,
                Err(e) => {
                    return Err(e);
                },
            };
            let label = text_of(&args[2]);
            match g.bind(v1, v2, label.as_str()) {
                Ok(()) => Ok(()),
                Err(e) => Err(CommandError::Store(e)),
            }
        } else if is_word(&name, "PUT") {
            if args.len() < 2 {
                return Err(CommandError::Arity);
            }
            let v = match self.parse(&args[0], g) {
                Ok(v) => v,
                Err(e) => {
                    return Err(e);
                },
            };
            match Self::parse_data(&args[1]) {
                Err(e) => Err(e),
                Ok(d) => match g.put(v, d) {
                    Ok(()) => Ok(()),
                    Err(e) => Err(CommandError::Store(e)),
                },
            }
        } else {
            Err(CommandError::Unknown(text_of(&name)))
        }
    }

    /// Reads the bytes that the text `s` of a payload stands for.
    pub fn parse_data(s: &Vec<char>) -> (r: Result<Vec<u8>, CommandError>)
        ensures
            match r {
                Ok(bytes) => data_of(s@) == Some(bytes@),
                Err(e) => data_of(s@) is None && e == CommandError::Data,
            },
    {
        match crate::token::parse_data(s) {
            Some(bytes) => Ok(bytes),
            None => Err(CommandError::Data),
        }
    }

    /// Finds the vertex that the argument `s` stands for, and gives a
    /// variable that occurs for the first time the vertex that `g` would
    /// take next.
    pub fn parse(&mut self, s: &Vec<char>, g: &Sodg) -> (r: Result<u32, CommandError>)
        requires
            g.wf(),
        ensures
            final(self).text() == old(self).text(),
            final(self).root() == old(self).root(),
            final(self).vars() == resolve(s@, old(self).vars(), old(self).root(), g@).vars,
            match r {
                Ok(v) => resolve(s@, old(self).vars(), old(self).root(), g@).vertex == Ok::<
                    u32,
                    CommandFault,
                >(v),
                Err(e) => resolve(s@, old(self).vars(), old(self).root(), g@).vertex == Err::<
                    u32,
                    CommandFault,
                >(e@),
            },
    {
        if s.len() > 0 && s[0] == '$' {
            let name = slice(s, 1, s.len());
            assert(name@ =~= s@.skip(1));
            match self.lookup(&name) {
                Some(id) => Ok(id),
                None => match g.next_id() {
                    Ok(id) => {
                        let ghost before = self.vars@;
                        self.vars.push(Var { name, id });
                        assert(self.vars@.drop_last() =~= before);
                        Ok(id)
                    },
                    Err(e) => Err(CommandError::Store(e)),
                },
            }
        } else {
            match parse_number(s) {
                Some(n) => Ok(
                    if n == 0 {
                        self.root
                    } else {
                        n
                    },
                ),
                None => Err(CommandError::Vertex),
            }
        }
    }

    /// The vertex of the variable `name`, if it has one.
    fn lookup(&self, name: &Vec<char>) -> (r: Option<u32>)
        ensures
            match r {
                Some(id) => self.vars().contains_key(name@) && self.vars()[name@] == id,
                None => !self.vars().contains_key(name@),
            },
    {
        let mut i: usize = self.vars.len();
        proof {
            assert(self.vars@.take(i as int) =~= self.vars@);
        }
        while i > 0
            invariant
                i <= self.vars.len(),
                table(self.vars@).contains_key(name@) <==> table(
                    self.vars@.take(i as int),
                ).contains_key(name@),
                table(self.vars@).contains_key(name@) ==> table(self.vars@)[name@] == table(
                    self.vars@.take(i as int),
                )[name@],
            decreases i,
        {
            proof {
                assert(self.vars@.take(i as int).drop_last() =~= self.vars@.take(i - 1));
            }
            if same(&self.vars[i - 1].name, name) {
                return Some(self.vars[i - 1].id);
            }
            i -= 1;
        }
        None
    }
}

} // verus!
