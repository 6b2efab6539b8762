//! Paths: the steps that address a place in a state tree, with an optional
//! reference to a capture entry in front.
use crate::ast::node::{positions_below, Ast, Node, NodeKind};
use crate::error::{validation_error, ErrorKind, ErrorModel, NmpolicyError};
use crate::text::{int_text, push_usize, str_eq};
use vstd::prelude::*;
use vstd::string::*;

verus! {

/// One step of a path, with the byte position it was written at.
pub enum StepModel {
    Identity(nat, Seq<char>),
    Number(nat, nat),
}

impl StepModel {
    pub open spec fn pos(self) -> nat {
        match self {
            StepModel::Identity(pos, _) => pos,
            StepModel::Number(pos, _) => pos,
        }
    }

    /// The text of a step in messages.
    pub open spec fn text(self) -> Seq<char> {
        match self {
            StepModel::Identity(_, name) => "identity("@ + name + ")"@,
            StepModel::Number(_, index) => "number("@ + int_text(index as int) + ")"@,
        }
    }
}

/// A path as a mathematical value.
pub struct PathModel {
    pub capture_entry_name: Option<Seq<char>>,
    pub steps: Seq<StepModel>,
    pub cursor: nat,
}

impl PathModel {
    /// The cursor stands before the last step.
    pub open spec fn has_more_steps(self) -> bool {
        self.cursor + 1 < self.steps.len()
    }

    /// The cursor stands on a step.
    pub open spec fn on_step(self) -> bool {
        self.cursor < self.steps.len()
    }

    pub open spec fn current_step(self) -> StepModel
        recommends
            self.on_step(),
    {
        self.steps[self.cursor as int]
    }

    /// The path with its cursor one step on; at the last step it stays.
    pub open spec fn next_step(self) -> PathModel {
        if self.has_more_steps() {
            PathModel { cursor: self.cursor + 1, ..self }
        } else {
            self
        }
    }
}

/// The index that a number literal gives: the literal itself, and for a
/// negative one the value that the two's complement conversion to an
/// unsigned machine word gives.
pub open spec fn index_of(n: int) -> nat {
    if n >= 0 {
        n as nat
    } else {
        (usize::MAX + 1 + n) as nat
    }
}

/// The step that a node of a path stands for; only identifiers and numbers
/// are steps.
pub open spec fn step_of(a: Ast) -> Option<StepModel> {
    match a {
        Ast::Identity(pos, name) => Some(StepModel::Identity(pos, name)),
        Ast::Number(pos, n) => Some(StepModel::Number(pos, index_of(n))),
        _ => None,
    }
}

/// The steps of the nodes, when every node is a step.
pub open spec fn steps_of(items: Seq<Ast>) -> Option<Seq<StepModel>> {
    if forall|i: int| 0 <= i < items.len() ==> (#[trigger] step_of(items[i])) is Some {
        Some(Seq::new(items.len(), |i: int| step_of(items[i])->0))
    } else {
        None
    }
}

/// The marker for what a path cannot express.
pub open spec fn not_implemented() -> ErrorModel {
    ErrorModel::plain(ErrorKind::NotImplementedError, Seq::empty())
}

pub open spec fn missing_capture_entry_name() -> ErrorModel {
    ErrorModel::plain(
        ErrorKind::ValidationError,
        "path capture ref is missing capture entry name"@,
    )
}

/// The path that a syntax tree compiles to. Only a path node with at least
/// one step compiles, and each of its nodes has to be a step. A first step
/// `capture` makes the path a reference: the second step, an identifier,
/// names the capture entry, and the steps after it are the steps of the path.
pub open spec fn compose(a: Ast) -> Result<PathModel, ErrorModel> {
    match a {
        Ast::Path(_, items) => {
            if items.len() == 0 {
                Err(not_implemented())
            } else {
                match steps_of(items) {
                    None => Err(not_implemented()),
                    Some(steps) => match steps[0] {
                        StepModel::Identity(_, first) => {
                            if first == "capture"@ {
                                if steps.len() < 2 {
                                    Err(missing_capture_entry_name())
                                } else {
                                    match steps[1] {
                                        StepModel::Identity(_, name) => Ok(
                                            PathModel {
                                                capture_entry_name: Some(name),
                                                steps: steps.skip(2),
                                                cursor: 0,
                                            },
                                        ),
                                        StepModel::Number(_, _) => Err(
                                            missing_capture_entry_name(),
                                        ),
                                    }
                                }
                            } else {
                                Ok(PathModel { capture_entry_name: None, steps, cursor: 0 })
                            }
                        },
                        StepModel::Number(_, _) => Err(not_implemented()),
                    },
                }
            }
        },
        _ => Err(not_implemented()),
    }
}

/// The path stands at its beginning and has three steps, the names `first`,
/// `second` and `third`.
pub open spec fn three_names(
    path: PathModel,
    first: Seq<char>,
    second: Seq<char>,
    third: Seq<char>,
) -> bool {
    &&& path.cursor == 0
    &&& path.steps.len() == 3
    &&& path.steps[0] matches StepModel::Identity(_, name) && name == first
    &&& path.steps[1] matches StepModel::Identity(_, name) && name == second
    &&& path.steps[2] matches StepModel::Identity(_, name) && name == third
}

/// Every step of the path was written at a position below `limit`.
pub open spec fn steps_below(path: PathModel, limit: nat) -> bool {
    forall|i: int| 0 <= i < path.steps.len() ==> (#[trigger] path.steps[i]).pos() < limit
}

/// The error is tied to no expression and points below `limit`.
pub open spec fn raised_below(e: ErrorModel, limit: nat) -> bool {
    e.expression is None && e.pos < limit
}

/// The steps of a compiled path are written where the nodes of the tree
/// are; an error of the compilation points nowhere yet.
pub proof fn lemma_compose_positions(a: Ast, limit: nat)
    requires
        positions_below(a, limit),
    ensures
        match compose(a) {
            Ok(path) => steps_below(path, limit) && path.cursor == 0,
            Err(e) => e.expression is None && e.pos == 0,
        },
{
    match a {
        Ast::Path(_, items) => {
            if items.len() > 0 && steps_of(items) is Some {
                let steps = steps_of(items)->0;
                assert forall|i: int| 0 <= i < steps.len() implies (#[trigger] steps[i]).pos()
                    < limit by {
                    assert(positions_below(items[i], limit));
                    assert(step_of(items[i]) is Some);
                }
                if steps.len() >= 2 {
                    assert forall|i: int| 0 <= i < steps.skip(2).len() implies (
                    #[trigger] steps.skip(2)[i]).pos() < limit by {
                        assert(steps.skip(2)[i] == steps[i + 2]);
                    }
                }
            }
        },
        _ => {},
    }
}

#[derive(Debug, PartialEq, Eq)]
pub enum Step {
    Identity(usize, String),
    Number(usize, usize),
}

impl View for Step {
    type V = StepModel;

    open spec fn view(&self) -> StepModel {
        match self {
            Step::Identity(pos, name) => StepModel::Identity(*pos as nat, name@),
            Step::Number(pos, index) => StepModel::Number(*pos as nat, *index as nat),
        }
    }
}

impl Clone for Step {
    fn clone(&self) -> (r: Self)
        ensures
            r@ == self@,
    {
        match self {
            Step::Identity(pos, name) => Step::Identity(*pos, name.clone()),
            Step::Number(pos, index) => Step::Number(*pos, *index),
        }
    }
}

impl Step {
    pub fn pos(&self) -> (r: usize)
        ensures
            r == self@.pos(),
    {
        match self {
            Step::Identity(pos, _) => *pos,
            Step::Number(pos, _) => *pos,
        }
    }

    /// The text of the step in messages.
    pub fn to_string(&self) -> (r: String)
        ensures
            r@ == self@.text(),
    {
        match self {
            Step::Identity(_, name) => {
                let mut out = String::from_str("identity(");
                out.append(name.as_str());
                out.append(")");
                out
            },
            Step::Number(_, index) => {
                let mut out = String::from_str("number(");
                push_usize(&mut out, *index);
                out.append(")");
                out
            },
        }
    }
}

/// The steps that a vector of steps stands for.
pub open spec fn steps_view(steps: Seq<Step>) -> Seq<StepModel> {
    Seq::new(steps.len(), |i: int| steps[i]@)
}

#[derive(Debug, PartialEq, Eq)]
pub struct Path {
    pub capture_entry_name: Option<String>,
    pub steps: Vec<Step>,
    pub current_step_idx: usize,
}

impl View for Path {
    type V = PathModel;

    open spec fn view(&self) -> PathModel {
        PathModel {
            capture_entry_name: match self.capture_entry_name {
                Some(name) => Some(name@),
                None => None,
            },
            steps: steps_view(self.steps@),
            cursor: self.current_step_idx as nat,
        }
    }
}

impl Clone for Path {
    fn clone(&self) -> (r: Self)
        ensures
            r@ == self@,
    {
        let mut steps: Vec<Step> = Vec::new();
        let mut i: usize = 0;
        while i < self.steps.len()
            invariant
                i <= self.steps.len(),
                steps.len() == i,
                forall|j: int| 0 <= j < i ==> steps@[j]@ == self.steps@[j]@,
            decreases self.steps.len() - i,
        {
            steps.push(self.steps[i].clone());
            i += 1;
        }
        proof {
            assert(steps_view(steps@) =~= steps_view(self.steps@));
        }
        Path {
            capture_entry_name: match &self.capture_entry_name {
                Some(name) => Some(name.clone()),
                None => None,
            },
            steps,
            current_step_idx: self.current_step_idx,
        }
    }
}

/// The index that a number literal gives as a step.
fn index_from(n: i32) -> (r: usize)
    ensures
        r == index_of(n as int),
{
    if n >= 0 {
        n as usize
    } else {
        let back: i32 = -(n + 1);
        usize::MAX - (back as usize)
    }
}

impl Path {
    /// A path over the given steps, with the cursor on the first one.
    pub fn new(capture_entry_name: Option<String>, steps: Vec<Step>) -> (r: Path)
        ensures
            r.capture_entry_name == capture_entry_name,
            r.steps == steps,
            r.current_step_idx == 0,
    {
        Path { capture_entry_name, steps, current_step_idx: 0 }
    }

    /// Compiles a path node into a path.
    pub fn compose_from_node(node: Node) -> (r: Result<Path, NmpolicyError>)
        ensures
            match r {
                Ok(path) => compose(node@) == Ok::<PathModel, ErrorModel>(path@),
                Err(e) => compose(node@) == Err::<PathModel, ErrorModel>(e@),
            },
    {
        let ghost tree = node@;
        let ghost items = node@->Path_1;
        match node.kind {
            NodeKind::Path(node_steps) => {
                proof {
                    assert(tree == Ast::Path(tree.pos(), items));
                    assert(items == crate::ast::node::nodes_view(node_steps@));
                }
                if node_steps.len() == 0 {
                    return Err(NmpolicyError::new(ErrorKind::NotImplementedError));
                }
                let mut steps: Vec<Step> = Vec::new();
                let mut i: usize = 0;
                while i < node_steps.len()
                    invariant
                        i <= node_steps.len(),
                        steps.len() == i,
                        tree == node@,
                        tree == Ast::Path(tree.pos(), items),
                        items == crate::ast::node::nodes_view(node_steps@),
                        forall|j: int|
                            0 <= j < i ==> (#[trigger] step_of(items[j])) == Some(steps@[j]@),
                    decreases node_steps.len() - i,
                {
                    let node_step = &node_steps[i];
                    match &node_step.kind {
                        NodeKind::Identity(step) => {
                            steps.push(Step::Identity(node_step.pos, step.clone()));
                        },
                        NodeKind::Number(step) => {
                            steps.push(Step::Number(node_step.pos, index_from(*step)));
                        },
                        _ => {
                            proof {
                                assert(step_of(items[i as int]) is None);
                            }
                            return Err(NmpolicyError::new(ErrorKind::NotImplementedError));
                        },
                    }
                    i += 1;
                }
                proof {
                    assert(steps_of(items) is Some);
                    assert(steps_of(items)->0 =~= steps_view(steps@));
                }
                match &steps[0] {
                    Step::Identity(_, first_step) => {
                        if str_eq(first_step.as_str(), "capture") {
                            if steps.len() < 2 {
                                return Err(
                                    validation_error(
                                        String::from_str(
                                            "path capture ref is missing capture entry name",
                                        ),
                                    ),
                                );
                            }
                            match &steps[1] {
                                Step::Identity(_, capture_entry_name) => {
                                    let name = capture_entry_name.clone();
                                    let mut rest: Vec<Step> = Vec::new();
                                    let mut k: usize = 2;
                                    while k < steps.len()
                                        invariant
                                            2 <= k <= steps.len(),
                                            rest.len() == k - 2,
                                            forall|j: int|
                                                0 <= j < k - 2 ==> rest@[j]@ == steps@[j + 2]@,
                                        decreases steps.len() - k,
                                    {
                                        rest.push(steps[k].clone());
                                        k += 1;
                                    }
                                    proof {
                                        assert(steps_view(rest@) =~= steps_view(steps@).skip(2));
                                    }
                                    Ok(
                                        Path {
                                            capture_entry_name: Some(name),
                                            steps: rest,
                                            current_step_idx: 0,
                                        },
                                    )
                                },
                                Step::Number(_, _) => Err(
                                    validation_error(
                                        String::from_str(
                                            "path capture ref is missing capture entry name",
                                        ),
                                    ),
                                ),
                            }
                        } else {
                            Ok(Path { capture_entry_name: None, steps, current_step_idx: 0 })
                        }
                    },
                    Step::Number(_, _) => Err(NmpolicyError::new(ErrorKind::NotImplementedError)),
                }
            },
            _ => Err(NmpolicyError::new(ErrorKind::NotImplementedError)),
        }
    }

    /// Whether the cursor stands before the last step.
    pub fn has_more_steps(&self) -> (r: bool)
        ensures
            r == self@.has_more_steps(),
    {
        self.steps.len() > 0 && self.current_step_idx < self.steps.len() - 1
    }

    /// The step that the cursor stands on.
    pub fn current_step(&self) -> (r: &Step)
        requires
            self@.on_step(),
        ensures
            r@ == self@.current_step(),
    {
        &self.steps[self.current_step_idx]
    }

    /// Moves the cursor one step on, unless it stands on the last step.
    pub fn next_step(&mut self)
        ensures
            final(self)@ == old(self)@.next_step(),
    {
        if self.has_more_steps() {
            assert(self@.steps.len() == self.steps.len());
            self.current_step_idx += 1;
        }
    }
}

} // verus!
