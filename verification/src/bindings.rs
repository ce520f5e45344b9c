//! What the local variables in scope were last bound to.

use vstd::prelude::*;

verus! {

/// What a local variable was bound to when it was declared, as far as the
/// initializer is simple enough to follow.
#[derive(Debug, PartialEq, Eq)]
pub enum Binding {
    /// A name: an identifier or a chain of field accesses.
    Name(String),
    /// The result of calling the function of that name.
    CallResult(String),
    /// No initializer, or one that is not followed.
    Opaque,
}

/// The mathematical value of a [`Binding`].
pub enum BoundTo {
    Name(Seq<char>),
    CallResult(Seq<char>),
    Opaque,
}

impl View for Binding {
    type V = BoundTo;

    open spec fn view(&self) -> BoundTo {
        match self {
            Binding::Name(name) => BoundTo::Name(name@),
            Binding::CallResult(name) => BoundTo::CallResult(name@),
            Binding::Opaque => BoundTo::Opaque,
        }
    }
}

/// One scope's declarations, oldest first.
pub type Frame = Seq<(Seq<char>, BoundTo)>;

/// The binding of the latest declaration of `name` in `frame`.
pub open spec fn frame_lookup(frame: Frame, name: Seq<char>) -> Option<BoundTo>
    decreases frame.len(),
{
    if frame.len() == 0 {
        None
    } else if frame.last().0 == name {
        Some(frame.last().1)
    } else {
        frame_lookup(frame.drop_last(), name)
    }
}

/// The binding of `name` in the innermost scope that declares it.
pub open spec fn lookup(frames: Seq<Frame>, name: Seq<char>) -> Option<BoundTo>
    decreases frames.len(),
{
    if frames.len() == 0 {
        None
    } else {
        match frame_lookup(frames.last(), name) {
            Some(bound) => Some(bound),
            None => lookup(frames.drop_last(), name),
        }
    }
}

/// `frames` with `name` declared in the innermost scope. Without any scope
/// the declaration opens one.
pub open spec fn declare(frames: Seq<Frame>, name: Seq<char>, bound: BoundTo) -> Seq<Frame> {
    if frames.len() == 0 {
        seq![seq![(name, bound)]]
    } else {
        frames.update(frames.len() - 1, frames.last().push((name, bound)))
    }
}

/// The mathematical value of one frame of the stack.
pub open spec fn frame_view(frame: Seq<(String, Binding)>) -> Frame {
    Seq::new(frame.len(), |i: int| (frame[i].0@, frame[i].1@))
}

/// A stack of scopes, innermost last, each mapping the names declared in it to
/// their bindings. A declaration in an inner scope shadows an outer one and
/// never changes it.
#[derive(Debug)]
pub struct ScopedBindings {
    frames: Vec<Vec<(String, Binding)>>,
}

impl View for ScopedBindings {
    type V = Seq<Frame>;

    closed spec fn view(&self) -> Seq<Frame> {
        Seq::new(self.frames@.len(), |i: int| frame_view(self.frames@[i]@))
    }
}

impl ScopedBindings {
    /// No scope at all.
    pub fn new() -> (bindings: Self)
        ensures
            bindings@ == Seq::<Frame>::empty(),
    {
        let bindings = ScopedBindings { frames: Vec::new() };
        bindings
    }

    /// Opens a scope.
    pub fn push(&mut self)
        ensures
            final(self)@ == old(self)@.push(Seq::<(Seq<char>, BoundTo)>::empty()),
    {
        self.frames.push(Vec::new());
        proof {
            let empty = Seq::<(Seq<char>, BoundTo)>::empty();
            assert(frame_view(Seq::<(String, Binding)>::empty()) =~= empty);
        }
    }

    /// Closes the innermost scope, if there is one.
    pub fn pop(&mut self)
        ensures
            old(self)@.len() == 0 ==> final(self)@ == old(self)@,
            old(self)@.len() > 0 ==> final(self)@ == old(self)@.drop_last(),
    {
        self.frames.pop();
    }

    /// Declares `name` in the innermost scope.
    pub fn insert(&mut self, name: String, binding: Binding)
        ensures
            final(self)@ == declare(old(self)@, name@, binding@),
    {
        let ghost bound = binding@;
        let ghost key = name@;
        match self.frames.pop() {
            Some(mut frame) => {
                let ghost before = frame@;
                frame.push((name, binding));
                assert(frame_view(frame@) =~= frame_view(before).push((key, bound)));
                self.frames.push(frame);
            },
            None => {
                let mut frame: Vec<(String, Binding)> = Vec::new();
                frame.push((name, binding));
                assert(frame_view(frame@) =~= seq![(key, bound)]);
                self.frames.push(frame);
            },
        }
    }

    /// The binding of `name` in the innermost scope that declares it.
    pub fn get(&self, name: &String) -> (found: Option<&Binding>)
        ensures
            found is Some <==> lookup(self@, name@) is Some,
            found is Some ==> found->0@ == lookup(self@, name@)->0,
    {
        let mut depth: usize = self.frames.len();
        assert(self@.take(depth as int) =~= self@);
        while depth > 0
            invariant
                depth <= self.frames@.len(),
                lookup(self@, name@) == lookup(self@.take(depth as int), name@),
            decreases depth,
        {
            depth -= 1;
            let ghost scopes = self@.take(depth + 1);
            assert(scopes.drop_last() =~= self@.take(depth as int));
            let found = frame_get(&self.frames[depth], name);
            if found.is_some() {
                return found;
            }
        }
        None
    }
}

fn frame_get<'a>(frame: &'a Vec<(String, Binding)>, name: &String) -> (found: Option<&'a Binding>)
    ensures
        found is Some <==> frame_lookup(frame_view(frame@), name@) is Some,
        found is Some ==> found->0@ == frame_lookup(frame_view(frame@), name@)->0,
{
    let mut at: usize = frame.len();
    assert(frame_view(frame@).take(at as int) =~= frame_view(frame@));
    while at > 0
        invariant
            at <= frame@.len(),
            frame_lookup(frame_view(frame@), name@) == frame_lookup(
                frame_view(frame@).take(at as int),
                name@,
            ),
        decreases at,
    {
        at -= 1;
        let ghost entries = frame_view(frame@).take(at + 1);
        assert(entries.drop_last() =~= frame_view(frame@).take(at as int));
        if frame[at].0 == *name {
            return Some(&frame[at].1);
        }
    }
    None
}

} // verus!
