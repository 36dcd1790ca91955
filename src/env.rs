use crate::text::same_text;
use crate::value::{string_views, Value};
use crate::vars::Variable;
use std::rc::Rc;
use vstd::prelude::*;

verus! {

/// One scope frame: its own bindings, each name at most once, and the frame it is
/// nested in, if any. A parent frame may be shared by several children.
pub struct Environment {
    vars: Vec<Variable>,
    parent: Option<Rc<Environment>>,
}

/// The position of the first binding of `name` among `vars`.
pub open spec fn find(vars: Seq<Variable>, name: Seq<char>) -> Option<int>
    decreases vars.len(),
{
    if vars.len() == 0 {
        None
    } else {
        match find(vars.drop_last(), name) {
            Some(i) => Some(i),
            None => if vars.last().name@ == name {
                Some(vars.len() - 1)
            } else {
                None
            },
        }
    }
}

proof fn lemma_find(vars: Seq<Variable>, name: Seq<char>)
    ensures
        find(vars, name) is None <==> forall|j: int|
            0 <= j < vars.len() ==> (#[trigger] vars[j]).name@ != name,
        find(vars, name) matches Some(i) ==> 0 <= i < vars.len() && vars[i].name@ == name,
    decreases vars.len(),
{
    if vars.len() > 0 {
        lemma_find(vars.drop_last(), name);
        if find(vars.drop_last(), name) is None && vars.last().name@ != name {
            assert forall|j: int| 0 <= j < vars.len() implies (#[trigger] vars[j]).name@
                != name by {
                if j < vars.len() - 1 {
                    assert(vars[j] == vars.drop_last()[j]);
                }
            }
        }
        if find(vars.drop_last(), name) is Some {
            let i = find(vars.drop_last(), name)->0;
            assert(vars[i] == vars.drop_last()[i]);
        }
    }
}

proof fn lemma_find_step(vars: Seq<Variable>, name: Seq<char>, i: int)
    requires
        0 <= i < vars.len(),
        find(vars.take(i), name) is None,
    ensures
        find(vars.take(i + 1), name) == if vars[i].name@ == name {
            Some(i)
        } else {
            None::<int>
        },
{
    assert(vars.take(i + 1).drop_last() =~= vars.take(i));
}

proof fn lemma_find_names(a: Seq<Variable>, b: Seq<Variable>, name: Seq<char>)
    requires
        a.len() == b.len(),
        forall|j: int| 0 <= j < a.len() ==> (#[trigger] a[j]).name@ == b[j].name@,
    ensures
        find(a, name) == find(b, name),
    decreases a.len(),
{
    if a.len() > 0 {
        assert forall|j: int| 0 <= j < a.drop_last().len() implies (
        #[trigger] a.drop_last()[j]).name@ == b.drop_last()[j].name@ by {
            assert(a.drop_last()[j] == a[j]);
            assert(b.drop_last()[j] == b[j]);
        }
        lemma_find_names(a.drop_last(), b.drop_last(), name);
        assert(a.last().name@ == b.last().name@);
    }
}

/// The position of the first binding of `key` in `vars`.
fn position(vars: &Vec<Variable>, key: &str) -> (r: Option<usize>)
    ensures
        r matches Some(i) ==> find(vars@, key@) == Some(i as int),
        r is None ==> find(vars@, key@) is None,
{
    let n = vars.len();
    let mut i: usize = 0;
    while i < n
        invariant
            n == vars.len(),
            0 <= i <= n,
            find(vars@.take(i as int), key@) is None,
        decreases n - i,
    {
        proof {
            lemma_find_step(vars@, key@, i as int);
        }
        if same_text(vars[i].name.as_str(), key) {
            proof {
                lemma_find_prefix(vars@, key@, i as int);
            }
            return Some(i);
        }
        i = i + 1;
    }
    proof {
        assert(vars@.take(n as int) =~= vars@);
    }
    None
}

/// Once a prefix finds a binding, every longer sequence finds the same one.
proof fn lemma_find_prefix(vars: Seq<Variable>, name: Seq<char>, i: int)
    requires
        0 <= i < vars.len(),
        find(vars.take(i + 1), name) == Some(i),
    ensures
        find(vars, name) == Some(i),
    decreases vars.len() - i,
{
    if i + 1 == vars.len() {
        assert(vars.take(i + 1) =~= vars);
    } else {
        lemma_find_extend(vars, name, i + 1, i);
    }
}

proof fn lemma_find_extend(vars: Seq<Variable>, name: Seq<char>, m: int, i: int)
    requires
        0 <= m <= vars.len(),
        find(vars.take(m), name) == Some(i),
    ensures
        find(vars, name) == Some(i),
    decreases vars.len() - m,
{
    if m == vars.len() {
        assert(vars.take(m) =~= vars);
    } else {
        assert(vars.take(m + 1).drop_last() =~= vars.take(m));
        lemma_find_extend(vars, name, m + 1, i);
    }
}

impl Environment {
    /// The bindings of this frame alone.
    pub closed spec fn bindings(self) -> Seq<Variable> {
        self.vars@
    }

    /// The enclosing frame, if any.
    pub closed spec fn enclosing(self) -> Option<Environment> {
        match self.parent {
            Some(p) => Some(*p),
            None => None,
        }
    }

    /// The names bound in this frame alone.
    pub open spec fn names(self) -> Seq<Seq<char>> {
        self.bindings().map_values(|v: Variable| v.name@)
    }

    /// No name is bound twice in one frame, here or in any enclosing frame.
    pub closed spec fn wf(self) -> bool
        decreases self,
    {
        &&& forall|i: int, j: int|
            0 <= i < j < self.vars.len() ==> (#[trigger] self.vars@[i]).name@
                != (#[trigger] self.vars@[j]).name@
        &&& match self.parent {
            Some(p) => (*p).wf(),
            None => true,
        }
    }

    /// The binding that a lookup of `name` finds: the one in the nearest frame
    /// that binds it.
    pub closed spec fn lookup(self, name: Seq<char>) -> Option<Variable>
        decreases self,
    {
        match find(self.vars@, name) {
            Some(i) => Some(self.vars@[i]),
            None => match self.parent {
                Some(p) => (*p).lookup(name),
                None => None,
            },
        }
    }

    /// A lookup finds the binding of the frame itself where there is one, and
    /// otherwise what a lookup in the enclosing frame finds.
    pub broadcast proof fn lemma_lookup(self, name: Seq<char>)
        ensures
            #[trigger] self.lookup(name) == if exists|i: int|
                0 <= i < self.bindings().len() && self.bindings()[i].name@ == name {
                Some(self.bindings()[find(self.bindings(), name)->0])
            } else {
                match self.enclosing() {
                    Some(p) => p.lookup(name),
                    None => None,
                }
            },
    {
        lemma_find(self.vars@, name);
    }

    /// A binding in a frame shadows every binding of the same name in enclosing
    /// frames, and the names of a frame are those of its own bindings alone.
    pub proof fn lemma_shadowing(self, name: Seq<char>)
        ensures
            self.names().contains(name) ==> (self.lookup(name) matches Some(v) && v.name@ == name
                && self.bindings().contains(v)),
            forall|k: Seq<char>|
                #[trigger] self.names().contains(k) <==> exists|i: int|
                    0 <= i < self.bindings().len() && self.bindings()[i].name@ == k,
    {
        lemma_find(self.vars@, name);
        if self.names().contains(name) {
            let j = choose|j: int| 0 <= j < self.names().len() && self.names()[j] == name;
            assert(self.vars@[j].name@ == name);
            let i = find(self.vars@, name)->0;
            assert(self.bindings()[i] == self.vars@[i]);
        }
        assert forall|k: Seq<char>|
            #[trigger] self.names().contains(k) <==> exists|i: int|
                0 <= i < self.bindings().len() && self.bindings()[i].name@ == k by {
            if exists|i: int| 0 <= i < self.bindings().len() && self.bindings()[i].name@ == k {
                let i = choose|i: int| 0 <= i < self.bindings().len() && self.bindings()[i].name@ == k;
                assert(self.names()[i] == k);
            }
        }
    }

    /// An empty frame with no parent.
    pub fn new() -> (r: Environment)
        ensures
            r.wf(),
            r.bindings().len() == 0,
            r.enclosing() is None,
    {
        Environment { vars: Vec::new(), parent: None }
    }

    /// An empty frame nested in `parent`.
    pub fn with_parent(parent: Rc<Environment>) -> (r: Environment)
        requires
            parent.wf(),
        ensures
            r.wf(),
            r.bindings().len() == 0,
            r.enclosing() == Some(*parent),
    {
        Environment { vars: Vec::new(), parent: Some(parent) }
    }

    /// Binds `name` to `value` in this frame, replacing a binding of the same name
    /// in this frame; enclosing frames are left as they are.
    pub fn define(&mut self, name: String, value: Value)
        requires
            old(self).wf(),
        ensures
            final(self).wf(),
            final(self).enclosing() == old(self).enclosing(),
            final(self).lookup(name@) matches Some(v) && v.name@ == name@ && v.value == value,
            forall|k: Seq<char>|
                k != name@ ==> #[trigger] final(self).lookup(k) == old(self).lookup(k),
            forall|k: Seq<char>|
                #[trigger] final(self).names().contains(k) <==> (k == name@ || old(
                    self,
                ).names().contains(k)),
    {
        let ghost nm = name@;
        let ghost before = self.vars@;
        proof {
            lemma_find(before, nm);
        }
        match position(&self.vars, name.as_str()) {
            Some(i) => {
                self.vars.set(i, Variable { name, value });
                proof {
                    assert forall|j: int| 0 <= j < before.len() implies (
                    #[trigger] self.vars@[j]).name@ == before[j].name@ by {}
                    assert forall|k: Seq<char>| k != nm implies find(self.vars@, k) == find(
                        before,
                        k,
                    ) by {
                        lemma_find_names(self.vars@, before, k);
                    }
                    lemma_find_names(self.vars@, before, nm);
                    assert forall|k: Seq<char>| k != nm implies #[trigger] self.lookup(k)
                        == old(self).lookup(k) by {
                        lemma_find(before, k);
                        if let Some(j) = find(before, k) {
                            assert(j != i);
                            assert(self.vars@[j] == before[j]);
                        }
                    }
                    assert(self.names() =~= old(self).names());
                    assert(old(self).names()[i as int] == nm);
                    assert(old(self).names().contains(nm));
                }
            },
            None => {
                let ghost v = Variable { name, value };
                self.vars.push(Variable { name, value });
                proof {
                    assert(self.vars@ =~= before.push(v));
                    assert(self.vars@.drop_last() =~= before);
                    assert forall|k: Seq<char>| k != nm implies #[trigger] self.lookup(k)
                        == old(self).lookup(k) by {
                        assert(find(self.vars@, k) == find(before, k));
                        if let Some(j) = find(before, k) {
                            lemma_find(before, k);
                            assert(self.vars@[j] == before[j]);
                        }
                    }
                    assert(self.names() =~= old(self).names().push(nm));
                    assert forall|k: Seq<char>|
                        #[trigger] self.names().contains(k) <==> (k == nm || old(
                            self,
                        ).names().contains(k)) by {
                        if old(self).names().contains(k) {
                            let j = choose|j: int| 0 <= j < old(self).names().len() && old(self).names()[j] == k;
                            assert(self.names()[j] == k);
                        }
                        if k == nm {
                            assert(self.names()[before.len() as int] == k);
                        }
                    }
                    assert forall|a: int, b: int|
                        0 <= a < b < self.vars.len() implies (#[trigger] self.vars@[a]).name@
                        != (#[trigger] self.vars@[b]).name@ by {
                        if b < before.len() {
                            assert(self.vars@[a] == before[a]);
                            assert(self.vars@[b] == before[b]);
                        } else {
                            assert(self.vars@[a] == before[a]);
                        }
                    }
                }
            },
        }
    }

    /// The bindings of this frame alone, in the order they were made.
    pub fn own_bindings(&self) -> (r: &Vec<Variable>)
        ensures
            r@ == self.bindings(),
    {
        &self.vars
    }

    /// The names bound in this frame alone; enclosing frames are not consulted.
    pub fn keys(&self) -> (r: Vec<String>)
        ensures
            string_views(r@) == self.names(),
            self.wf() ==> forall|i: int, j: int|
                0 <= i < j < r.len() ==> (#[trigger] r@[i])@ != (#[trigger] r@[j])@,
    {
        let mut out: Vec<String> = Vec::new();
        let mut i: usize = 0;
        while i < self.vars.len()
            invariant
                0 <= i <= self.vars.len(),
                string_views(out@) == self.names().take(i as int),
                out.len() == i,
            decreases self.vars.len() - i,
        {
            let ghost prev = out@;
            let x = String::from_str(self.vars[i].name.as_str());
            out.push(x);
            proof {
                assert(string_views(out@) =~= string_views(prev).push(x@));
                assert(self.names().take(i + 1) =~= self.names().take(i as int).push(
                    self.names()[i as int],
                ));
            }
            i = i + 1;
        }
        proof {
            assert(self.names().take(self.vars.len() as int) =~= self.names());
            assert forall|i: int, j: int|
                0 <= i < j < out.len() && self.wf() implies (#[trigger] out@[i])@ != (
                #[trigger] out@[j])@ by {
                assert(string_views(out@)[i] == out@[i]@);
                assert(string_views(out@)[j] == out@[j]@);
                assert(self.vars@[i].name@ != self.vars@[j].name@);
            }
        }
        out
    }

    /// The binding of `key` in the nearest frame that binds it, if any.
    pub fn get(&self, key: &str) -> (r: Option<&Variable>)
        ensures
            r matches Some(v) ==> self.lookup(key@) == Some(*v),
            r is None <==> self.lookup(key@) is None,
        decreases self,
    {
        match position(&self.vars, key) {
            Some(i) => {
                proof {
                    lemma_find(self.vars@, key@);
                    assert(find(self.vars@, key@) == Some(i as int));
                    assert(self.lookup(key@) == Some(self.vars@[i as int]));
                }
                Some(&self.vars[i])
            },
            None => match &self.parent {
                Some(p) => p.get(key),
                None => None,
            },
        }
    }
}

} // verus!
