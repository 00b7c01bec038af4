use vstd::prelude::*;
use crate::text::owned;

verus! {

/// The first position at which `n` occurs in `s`.
pub open spec fn index_of(s: Seq<Seq<char>>, n: Seq<char>) -> Option<nat>
    decreases s.len(),
{
    if s.len() == 0 {
        None
    } else {
        match index_of(s.drop_last(), n) {
            Some(i) => Some(i),
            None => if s.last() == n {
                Some((s.len() - 1) as nat)
            } else {
                None
            },
        }
    }
}

/// Resolves a name in a chain of scopes (the innermost last): the slot in the first scope,
/// from the innermost outwards, that declares it, and how many scopes out that one lies.
pub open spec fn resolve(frames: Seq<Seq<Seq<char>>>, n: Seq<char>) -> Option<(nat, nat)>
    decreases frames.len(),
{
    if frames.len() == 0 {
        None
    } else {
        match index_of(frames.last(), n) {
            Some(i) => Some((i, 0)),
            None => match resolve(frames.drop_last(), n) {
                Some((i, h)) => Some((i, h + 1)),
                None => None,
            },
        }
    }
}

pub proof fn lemma_index_of_prefix(s: Seq<Seq<char>>, k: int, n: Seq<char>)
    requires
        0 <= k <= s.len(),
        index_of(s.subrange(0, k), n) is Some,
    ensures
        index_of(s, n) == index_of(s.subrange(0, k), n),
    decreases s.len() - k,
{
    if k < s.len() {
        assert(s.subrange(0, k + 1).drop_last() =~= s.subrange(0, k));
        lemma_index_of_prefix(s, k + 1, n);
    } else {
        assert(s.subrange(0, k) =~= s);
    }
}

pub proof fn lemma_index_of_bound(s: Seq<Seq<char>>, n: Seq<char>)
    ensures
        index_of(s, n) is Some ==> index_of(s, n)->0 < s.len() && s[index_of(s, n)->0 as int] == n,
    decreases s.len(),
{
    if s.len() > 0 {
        lemma_index_of_bound(s.drop_last(), n);
    }
}

/// The names of a chain of scopes. The current scope's names are `names`; those of the
/// enclosing scopes are in `outer`, the nearest last.
pub struct SymTab {
    pub outer: Vec<Vec<String>>,
    pub names: Vec<String>,
}

pub open spec fn names_view(v: Vec<String>) -> Seq<Seq<char>> {
    v@.map_values(|s: String| s@)
}

pub proof fn lemma_names_push(v: Seq<String>, s: String)
    ensures
        v.push(s).map_values(|s: String| s@) == v.map_values(|s: String| s@).push(s@),
{
    assert(v.push(s).map_values(|s: String| s@) =~= v.map_values(|s: String| s@).push(s@));
}

impl View for SymTab {
    type V = Seq<Seq<Seq<char>>>;

    /// The scopes' names, the innermost last.
    open spec fn view(&self) -> Seq<Seq<Seq<char>>> {
        self.outer@.map_values(|f: Vec<String>| names_view(f)).push(names_view(self.names))
    }
}

fn copy_names(v: &Vec<String>) -> (r: Vec<String>)
    ensures
        names_view(r) == names_view(*v),
{
    let mut r: Vec<String> = Vec::new();
    let mut i: usize = 0;
    while i < v.len()
        invariant
            i <= v.len(),
            names_view(r) == names_view(*v).subrange(0, i as int),
        decreases v.len() - i,
    {
        let c = v[i].clone();
        proof {
            lemma_names_push(r@, c);
        }
        r.push(c);
        i += 1;
        assert(names_view(r) =~= names_view(*v).subrange(0, i as int));
    }
    assert(names_view(*v).subrange(0, v.len() as int) =~= names_view(*v));
    r
}

impl SymTab {
    /// A scope nested in `parent`, declaring `names`.
    pub fn new(parent: SymTab, names: &Vec<String>) -> (r: SymTab)
        ensures
            r@ == parent@.push(names_view(*names)),
    {
        let mut r = parent;
        r.open_scope(names);
        r
    }

    /// The outermost scope, declaring nothing.
    pub fn new_global() -> (r: SymTab)
        ensures
            r@ == seq![Seq::<Seq<char>>::empty()],
    {
        let r = SymTab { outer: Vec::new(), names: Vec::new() };
        assert(names_view(r.names) =~= Seq::<Seq<char>>::empty());
        assert(r@ =~= seq![Seq::<Seq<char>>::empty()]);
        r
    }

    /// Enters a scope nested in the current one, declaring `names`.
    pub fn open_scope(&mut self, names: &Vec<String>)
        ensures
            final(self)@ == old(self)@.push(names_view(*names)),
    {
        let mut current = copy_names(names);
        std::mem::swap(&mut self.names, &mut current);
        self.outer.push(current);
        assert(final(self)@ =~= old(self)@.push(names_view(*names)));
    }

    /// Leaves the current scope, back to the enclosing one; the outermost scope stays.
    pub fn close_scope(&mut self)
        ensures
            old(self)@.len() > 1 ==> final(self)@ == old(self)@.drop_last(),
            old(self)@.len() == 1 ==> final(self)@ == old(self)@,
    {
        match self.outer.pop() {
            Some(f) => {
                self.names = f;
                assert(final(self)@ =~= old(self)@.drop_last());
            },
            None => {},
        }
    }

    /// A copy of the scopes.
    pub fn duplicate(&self) -> (r: SymTab)
        ensures
            r@ == self@,
    {
        let mut outer: Vec<Vec<String>> = Vec::new();
        let mut i: usize = 0;
        while i < self.outer.len()
            invariant
                i <= self.outer.len(),
                outer.len() == i,
                forall|j: int| 0 <= j < i ==> names_view(outer@[j]) == names_view(self.outer@[j]),
            decreases self.outer.len() - i,
        {
            outer.push(copy_names(&self.outer[i]));
            i += 1;
        }
        let r = SymTab { outer, names: copy_names(&self.names) };
        assert(r.outer@.map_values(|f: Vec<String>| names_view(f)) =~= self.outer@.map_values(|f: Vec<String>| names_view(f)));
        r
    }

    /// The number of names in the current scope.
    pub fn size(&self) -> (r: usize)
        ensures
            r == self@.last().len(),
    {
        self.names.len()
    }

    /// The slot of `name` in the current scope, added at the end if it is not there yet.
    /// Enclosing scopes are not searched.
    pub fn add_name(&mut self, name: &str) -> (r: usize)
        ensures
            index_of(old(self)@.last(), name@) is Some ==> final(self)@ == old(self)@ && r
                == index_of(old(self)@.last(), name@)->0,
            index_of(old(self)@.last(), name@) is None ==> final(self)@ == old(self)@.drop_last().push(
                old(self)@.last().push(name@),
            ) && r == old(self)@.last().len(),
    {
        match self.lookup_current(name) {
            Some(i) => i,
            None => {
                let r = self.names.len();
                let o = owned(name);
                proof {
                    lemma_names_push(self.names@, o);
                }
                self.names.push(o);
                assert(final(self)@ =~= old(self)@.drop_last().push(old(self)@.last().push(name@)));
                r
            },
        }
    }

    /// The slot of `name` in the current scope, if it is declared there.
    pub fn lookup_current(&self, name: &str) -> (r: Option<usize>)
        ensures
            r matches Some(i) ==> index_of(self@.last(), name@) == Some(i as nat),
            r is None ==> index_of(self@.last(), name@) is None,
    {
        find_index(&self.names, name)
    }

    /// Where `name` is declared: its slot, and how many scopes out from the current one.
    pub fn get_name(&self, name: &str) -> (r: Option<(usize, usize)>)
        ensures
            match r {
                Some((i, h)) => resolve(self@, name@) == Some((i as nat, h as nat)),
                None => resolve(self@, name@) is None,
            },
    {
        let ghost frames = self@;
        match find_index(&self.names, name) {
            Some(i) => {
                return Some((i, 0));
            },
            None => {},
        }
        assert(frames.drop_last() =~= self.outer@.map_values(|f: Vec<String>| names_view(f)));
        let mut k: usize = self.outer.len();
        while k > 0
            invariant
                k <= self.outer.len(),
                frames == self@,
                frames.len() == self.outer.len() + 1,
                forall|j: int| 0 <= j < self.outer.len() ==> frames[j] == names_view(self.outer@[j]),
                resolve(frames, name@) == shift(resolve(frames.subrange(0, k as int), name@), (self.outer.len() - k + 1) as nat),
            decreases k,
        {
            let ghost sub = frames.subrange(0, k as int);
            assert(sub.last() == frames[k - 1]);
            assert(sub.drop_last() =~= frames.subrange(0, k - 1));
            match find_index(&self.outer[k - 1], name) {
                Some(i) => {
                    return Some((i, self.outer.len() - k + 1));
                },
                None => {},
            }
            k -= 1;
        }
        None
    }
}

/// A resolution pushed `d` scopes further out.
pub open spec fn shift(r: Option<(nat, nat)>, d: nat) -> Option<(nat, nat)> {
    match r {
        Some((i, h)) => Some((i, h + d)),
        None => None,
    }
}

/// The first slot that holds `name`.
fn find_index(v: &Vec<String>, name: &str) -> (r: Option<usize>)
    ensures
        r matches Some(i) ==> index_of(names_view(*v), name@) == Some(i as nat),
        r is None ==> index_of(names_view(*v), name@) is None,
{
    let ghost s = names_view(*v);
    let key = owned(name);
    let mut i: usize = 0;
    while i < v.len()
        invariant
            i <= v.len(),
            s == names_view(*v),
            key@ == name@,
            index_of(s.subrange(0, i as int), name@) is None,
        decreases v.len() - i,
    {
        if v[i] == key {
            proof {
                assert(s.subrange(0, i + 1).drop_last() =~= s.subrange(0, i as int));
                lemma_index_of_prefix(s, i + 1, name@);
            }
            return Some(i);
        }
        assert(s.subrange(0, i + 1).drop_last() =~= s.subrange(0, i as int));
        i += 1;
    }
    assert(s.subrange(0, i as int) =~= s);
    None
}

} // verus!
