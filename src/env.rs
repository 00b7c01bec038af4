use vstd::prelude::*;
use crate::ast::{SType, Type};
use crate::error::{RunError, RunResult};

verus! {

/// The types of a chain of scopes, slot by slot, parallel to a `SymTab`. The current
/// scope's types are `types`; those of the enclosing scopes are in `outer`, the nearest last.
pub struct Env {
    pub outer: Vec<Vec<Type>>,
    pub types: Vec<Type>,
}

pub open spec fn types_view(v: Vec<Type>) -> Seq<SType> {
    v@.map_values(|t: Type| t@)
}

pub proof fn lemma_types_push(v: Seq<Type>, t: Type)
    ensures
        v.push(t).map_values(|t: Type| t@) == v.map_values(|t: Type| t@).push(t@),
{
    assert(v.push(t).map_values(|t: Type| t@) =~= v.map_values(|t: Type| t@).push(t@));
}

impl View for Env {
    type V = Seq<Seq<SType>>;

    /// The scopes' types, the innermost last.
    open spec fn view(&self) -> Seq<Seq<SType>> {
        self.outer@.map_values(|f: Vec<Type>| types_view(f)).push(types_view(self.types))
    }
}

/// The scope `hops` out from the current one.
pub open spec fn frame_at<A>(frames: Seq<Seq<A>>, hops: nat) -> Seq<A> {
    frames[frames.len() - 1 - hops]
}

/// Whether `(index, hops)` addresses a slot.
pub open spec fn valid_slot<A>(frames: Seq<Seq<A>>, index: nat, hops: nat) -> bool {
    hops < frames.len() && index < frame_at(frames, hops).len()
}

/// The frames with the slot `(index, hops)` set to `t`.
pub open spec fn with_slot(frames: Seq<Seq<SType>>, index: nat, hops: nat, t: SType) -> Seq<Seq<SType>> {
    frames.update(frames.len() - 1 - hops, frame_at(frames, hops).update(index as int, t))
}

fn copy_types(v: &[Type], size: usize) -> (r: Vec<Type>)
    ensures
        r.len() == if size > v@.len() { size as nat } else { v@.len() },
        forall|i: int| 0 <= i < v@.len() ==> r@[i]@ == v@[i]@,
        forall|i: int| v@.len() <= i < r.len() ==> r@[i]@ == SType::Undefined,
{
    let mut r: Vec<Type> = Vec::new();
    let mut i: usize = 0;
    while i < v.len()
        invariant
            i <= v@.len(),
            r.len() == i,
            forall|j: int| 0 <= j < i ==> r@[j]@ == v@[j]@,
        decreases v@.len() - i,
    {
        r.push(v[i].clone());
        i += 1;
    }
    while r.len() < size
        invariant
            r.len() >= v@.len(),
            r.len() == v@.len() || r.len() <= size,
            forall|j: int| 0 <= j < v@.len() ==> r@[j]@ == v@[j]@,
            forall|j: int| v@.len() <= j < r.len() ==> r@[j]@ == SType::Undefined,
        decreases size - r.len(),
    {
        r.push(Type::Undefined);
    }
    r
}

impl Env {
    /// A scope nested in `parent`, whose slots hold `types`.
    pub fn new(parent: Env, types: &Vec<Type>) -> (r: Env)
        ensures
            r@ == parent@.push(types_view(*types)),
    {
        let mut r = parent;
        r.open_scope(types.as_slice(), 0);
        r
    }

    /// The outermost scope, with no slots.
    pub fn new_global() -> (r: Env)
        ensures
            r@ == seq![Seq::<SType>::empty()],
    {
        let r = Env { outer: Vec::new(), types: Vec::new() };
        assert(types_view(r.types) =~= Seq::<SType>::empty());
        assert(r@ =~= seq![Seq::<SType>::empty()]);
        r
    }

    /// A scope nested in `parent` whose first slots hold `types`, padded with `Undefined`
    /// slots up to `size` slots.
    pub fn new_partial(parent: Env, types: &[Type], size: usize) -> (r: Env)
        ensures
            r@.drop_last() == parent@,
            r@.last().len() == if size > types@.len() { size as nat } else { types@.len() },
            forall|i: int| 0 <= i < types@.len() ==> r@.last()[i] == types@[i]@,
            forall|i: int| types@.len() <= i < r@.last().len() ==> r@.last()[i] == SType::Undefined,
    {
        let mut r = parent;
        r.open_scope(types, size);
        r
    }

    /// Enters a scope nested in the current one, whose slots hold `types`, padded with
    /// `Undefined` slots up to `size` slots.
    pub fn open_scope(&mut self, types: &[Type], size: usize)
        ensures
            final(self)@.drop_last() == old(self)@,
            final(self)@.last().len() == if size > types@.len() { size as nat } else { types@.len() },
            forall|i: int| 0 <= i < types@.len() ==> final(self)@.last()[i] == types@[i]@,
            forall|i: int| types@.len() <= i < final(self)@.last().len() ==> final(self)@.last()[i]
                == SType::Undefined,
            size == 0 ==> final(self)@ == old(self)@.push(types@.map_values(|t: Type| t@)),
    {
        let mut current = copy_types(types, size);
        std::mem::swap(&mut self.types, &mut current);
        self.outer.push(current);
        assert(final(self)@.drop_last() =~= old(self)@);
        if size == 0 {
            assert(final(self)@.last() =~= types@.map_values(|t: Type| t@));
            assert(final(self)@ =~= old(self)@.push(types@.map_values(|t: Type| t@)));
        }
    }

    /// Leaves the current scope, back to the enclosing one; the outermost scope stays.
    pub fn close_scope(&mut self)
        ensures
            old(self)@.len() > 1 ==> final(self)@ == old(self)@.drop_last(),
            old(self)@.len() == 1 ==> final(self)@ == old(self)@,
    {
        match self.outer.pop() {
            Some(f) => {
                self.types = f;
                assert(final(self)@ =~= old(self)@.drop_last());
            },
            None => {},
        }
    }

    /// Sets the type of slot `index` of the scope `env_index` out from the current one.
    pub fn set_type(&mut self, index: usize, env_index: usize, t: Type) -> (r: RunResult<()>)
        ensures
            r is Ok <==> valid_slot(old(self)@, index as nat, env_index as nat),
            r is Ok ==> final(self)@ == with_slot(old(self)@, index as nat, env_index as nat, t@),
            r is Err ==> final(self)@ == old(self)@,
    {
        if env_index == 0 {
            if index < self.types.len() {
                let ghost tv = t@;
                self.types.set(index, t);
                assert(types_view(self.types) =~= frame_at(old(self)@, 0).update(index as int, tv));
                assert(final(self)@ =~= with_slot(old(self)@, index as nat, 0, tv));
                Ok(())
            } else {
                Err(RunError::new("can't set type of invalid type index"))
            }
        } else if env_index <= self.outer.len() {
            let k = self.outer.len() - env_index;
            if index < self.outer[k].len() {
                let ghost tv = t@;
                let mut f: Vec<Type> = Vec::new();
                std::mem::swap(&mut f, &mut self.outer[k]);
                f.set(index, t);
                std::mem::swap(&mut f, &mut self.outer[k]);
                assert(types_view(self.outer@[k as int]) =~= frame_at(old(self)@, env_index as nat).update(index as int, tv));
                assert(final(self)@ =~= with_slot(old(self)@, index as nat, env_index as nat, tv));
                Ok(())
            } else {
                Err(RunError::new("can't set type of invalid type index"))
            }
        } else {
            Err(RunError::new("can't set type with invalid env index"))
        }
    }

    /// The type of slot `index` of the scope `env_index` out from the current one.
    pub fn get_type(&self, index: usize, env_index: usize) -> (r: RunResult<Type>)
        ensures
            r is Ok <==> valid_slot(self@, index as nat, env_index as nat),
            r is Ok ==> r->Ok_0@ == frame_at(self@, env_index as nat)[index as int],
    {
        if env_index == 0 {
            if index < self.types.len() {
                Ok(self.types[index].clone())
            } else {
                Err(RunError::new("can't get type of invalid type index"))
            }
        } else if env_index <= self.outer.len() {
            let k = self.outer.len() - env_index;
            if index < self.outer[k].len() {
                Ok(self.outer[k][index].clone())
            } else {
                Err(RunError::new("can't get type of invalid type index"))
            }
        } else {
            Err(RunError::new("can't get type with invalid env index"))
        }
    }

    /// A copy of the scopes.
    pub fn duplicate(&self) -> (r: Env)
        ensures
            r@ == self@,
    {
        let mut outer: Vec<Vec<Type>> = Vec::new();
        let mut i: usize = 0;
        while i < self.outer.len()
            invariant
                i <= self.outer.len(),
                outer.len() == i,
                forall|j: int| 0 <= j < i ==> types_view(outer@[j]) == types_view(self.outer@[j]),
            decreases self.outer.len() - i,
        {
            let f = copy_types(self.outer[i].as_slice(), 0);
            assert(types_view(f) =~= types_view(self.outer@[i as int]));
            outer.push(f);
            i += 1;
        }
        let t = copy_types(self.types.as_slice(), 0);
        assert(types_view(t) =~= types_view(self.types));
        let r = Env { outer, types: t };
        assert(r.outer@.map_values(|f: Vec<Type>| types_view(f)) =~= self.outer@.map_values(|f: Vec<Type>| types_view(f)));
        r
    }

    /// The number of slots of the current scope.
    pub fn size(&self) -> (r: usize)
        ensures
            r == self@.last().len(),
    {
        self.types.len()
    }

    /// Adds one `Undefined` slot to the current scope.
    pub fn grow(&mut self)
        ensures
            final(self)@ == old(self)@.drop_last().push(old(self)@.last().push(SType::Undefined)),
    {
        proof {
            lemma_types_push(self.types@, Type::Undefined);
        }
        self.types.push(Type::Undefined);
        assert(final(self)@ =~= old(self)@.drop_last().push(old(self)@.last().push(SType::Undefined)));
    }
}

} // verus!
