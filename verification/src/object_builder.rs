//! Templates of native objects and their builder.

use vstd::prelude::*;
use vstd::string::StringExecFns;

verus! {

/// Whether no name occurs twice among the methods.
pub open spec fn distinct_names<M>(methods: Seq<(String, M)>) -> bool {
    forall|i: int, j: int|
        0 <= i < j < methods.len() ==> (#[trigger] methods[i]).0@ != (#[trigger] methods[j]).0@
}

/// Whether a method of the given name is among the methods.
pub open spec fn has_name<M>(methods: Seq<(String, M)>, name: Seq<char>) -> bool {
    exists|i: int| 0 <= i < methods.len() && (#[trigger] methods[i]).0@ == name
}

/// The position of the first method of the given name, or the number of
/// methods where none has it.
pub open spec fn index_of_name<M>(methods: Seq<(String, M)>, name: Seq<char>) -> int
    decreases methods.len(),
{
    if methods.len() == 0 {
        0
    } else if methods.first().0@ == name {
        0
    } else {
        1 + index_of_name(methods.drop_first(), name)
    }
}

/// The methods without the first one of the given name, if there is one.
pub open spec fn without<M>(methods: Seq<(String, M)>, name: Seq<char>) -> Seq<(String, M)> {
    if index_of_name(methods, name) < methods.len() {
        methods.remove(index_of_name(methods, name))
    } else {
        methods
    }
}

/// `index_of_name` is the first position at which the name stands.
pub proof fn lemma_index_of_name<M>(methods: Seq<(String, M)>, name: Seq<char>)
    ensures
        0 <= index_of_name(methods, name) <= methods.len(),
        index_of_name(methods, name) < methods.len() ==> methods[index_of_name(methods, name)].0@
            == name,
        forall|i: int| 0 <= i < index_of_name(methods, name) ==> (#[trigger] methods[i]).0@ != name,
        has_name(methods, name) <==> index_of_name(methods, name) < methods.len(),
    decreases methods.len(),
{
    if methods.len() > 0 && methods.first().0@ != name {
        let rest = methods.drop_first();
        lemma_index_of_name(rest, name);
        assert forall|i: int| 0 <= i < index_of_name(methods, name) implies (
        #[trigger] methods[i]).0@ != name by {
            if i > 0 {
                assert(rest[i - 1] == methods[i]);
            }
        }
        if has_name(methods, name) {
            let i = choose|i: int| 0 <= i < methods.len() && (#[trigger] methods[i]).0@ == name;
            assert(rest[i - 1] == methods[i]);
        }
        if has_name(rest, name) {
            let i = choose|i: int| 0 <= i < rest.len() && (#[trigger] rest[i]).0@ == name;
            assert(methods[i + 1] == rest[i]);
        }
    }
}

/// Without a name that stood once at most, the name stands nowhere, and what
/// is left still holds no name twice.
pub proof fn lemma_without<M>(methods: Seq<(String, M)>, name: Seq<char>)
    requires
        distinct_names(methods),
    ensures
        distinct_names(without(methods, name)),
        !has_name(without(methods, name), name),
{
    lemma_index_of_name(methods, name);
    let at = index_of_name(methods, name);
    let kept = without(methods, name);
    if at < methods.len() {
        assert forall|i: int| 0 <= i < kept.len() implies (#[trigger] kept[i]).0@ != name by {
            let a = if i < at { i } else { i + 1 };
            assert(kept[i] == methods[a]);
            assert(methods[a].0@ != methods[at].0@);
        }
        assert forall|i: int, j: int| 0 <= i < j < kept.len() implies (#[trigger] kept[i]).0@ != (
        #[trigger] kept[j]).0@ by {
            let a = if i < at { i } else { i + 1 };
            let b = if j < at { j } else { j + 1 };
            assert(kept[i] == methods[a]);
            assert(kept[j] == methods[b]);
        }
    }
}

/// The position of the first method of the given name.
fn position<M>(methods: &Vec<(String, M)>, name: &String) -> (r: usize)
    ensures
        r == index_of_name(methods@, name@),
        r <= methods.len(),
{
    let mut i: usize = 0;
    proof {
        lemma_index_of_name(methods@, name@);
    }
    while i < methods.len()
        invariant
            i <= methods.len(),
            forall|j: int| 0 <= j < i ==> (#[trigger] methods[j]).0@ != name@,
        decreases methods.len() - i,
    {
        if methods[i].0 == *name {
            proof {
                lemma_index_of_name(methods@, name@);
            }
            return i;
        }
        i = i + 1;
    }
    proof {
        lemma_index_of_name(methods@, name@);
    }
    i
}

/// The template of a native object: at most one constructor, and methods by
/// their names. `C` is what a constructor callback is to the host, `M` what a
/// method callback is; the template only holds them.
pub struct Object<C, M> {
    ctor: Option<C>,
    methods: Vec<(String, M)>,
}

impl<C, M> Object<C, M> {
    /// No name occurs twice among the methods. Every template that a builder
    /// hands over is well formed, and stays so.
    pub open spec fn wf(&self) -> bool {
        distinct_names(self.methods())
    }

    /// The constructor, if one is held.
    pub closed spec fn constructor(&self) -> Option<C> {
        self.ctor
    }

    /// The methods that are held, each with its name, in the order in which
    /// they were added.
    pub closed spec fn methods(&self) -> Seq<(String, M)> {
        self.methods@
    }

    /// Whether a constructor is held.
    pub fn has_constructor(&self) -> (r: bool)
        ensures
            r == self.constructor() is Some,
    {
        self.ctor.is_some()
    }

    /// How many methods are held.
    pub fn len(&self) -> (r: usize)
        ensures
            r == self.methods().len(),
    {
        self.methods.len()
    }

    /// The name of the method at a position.
    pub fn method_name(&self, at: usize) -> (r: &String)
        requires
            at < self.methods().len(),
        ensures
            *r == self.methods()[at as int].0,
    {
        &self.methods[at].0
    }

    pub fn has_method(&self, meth_name: &str) -> (r: bool)
        ensures
            r == has_name(self.methods(), meth_name@),
    {
        let name = String::from_str(meth_name);
        let at = position(&self.methods, &name);
        proof {
            lemma_index_of_name(self.methods@, meth_name@);
        }
        at < self.methods.len()
    }

    /// Takes the method of the given name out of the template.
    pub fn take_method(&mut self, meth_name: &str) -> (r: Option<M>)
        requires
            old(self).wf(),
        ensures
            final(self).wf(),
            r is Some <==> has_name(old(self).methods(), meth_name@),
            r matches Some(method) ==> method == old(self).methods()[index_of_name(
                old(self).methods(),
                meth_name@,
            )].1,
            final(self).methods() == without(old(self).methods(), meth_name@),
            !has_name(final(self).methods(), meth_name@),
            final(self).constructor() == old(self).constructor(),
    {
        let name = String::from_str(meth_name);
        let at = position(&self.methods, &name);
        proof {
            lemma_index_of_name(self.methods@, meth_name@);
            lemma_without(self.methods@, meth_name@);
        }
        if at < self.methods.len() {
            let entry = self.methods.remove(at);
            Some(entry.1)
        } else {
            None
        }
    }

    /// Takes the constructor out of the template.
    pub fn take_constructor(&mut self) -> (r: Option<C>)
        ensures
            r == old(self).constructor(),
            final(self).constructor() is None,
            final(self).methods() == old(self).methods(),
            final(self).wf() == old(self).wf(),
    {
        let mut ctor: Option<C> = None;
        core::mem::swap(&mut self.ctor, &mut ctor);
        ctor
    }

    /// Puts a constructor into a template that holds none; where it holds
    /// one, the constructor is given back.
    pub fn restore_constructor(&mut self, func: C) -> (r: Result<(), C>)
        ensures
            r is Ok <==> old(self).constructor() is None,
            r is Ok ==> final(self).constructor() == Some(func),
            r matches Err(back) ==> back == func && final(self).constructor() == old(
                self,
            ).constructor(),
            final(self).methods() == old(self).methods(),
            final(self).wf() == old(self).wf(),
    {
        if self.ctor.is_none() {
            self.ctor = Some(func);
            Ok(())
        } else {
            Err(func)
        }
    }

    /// Takes one method out of the template, the one added last, until none
    /// is left.
    pub fn next(&mut self) -> (r: Option<(String, M)>)
        ensures
            r is Some <==> old(self).methods().len() > 0,
            r matches Some(entry) ==> entry == old(self).methods().last() && final(self).methods()
                == old(self).methods().drop_last(),
            r is None ==> final(self).methods() == old(self).methods(),
            final(self).constructor() == old(self).constructor(),
            old(self).wf() ==> final(self).wf(),
    {
        self.methods.pop()
    }
}

/// Collects a constructor and methods, and hands them over as a template.
pub struct ObjectBuilder<C, M> {
    ctor: Option<C>,
    methods: Vec<(String, M)>,
}

impl<C, M> ObjectBuilder<C, M> {
    /// No name occurs twice among the methods. A new builder is well formed,
    /// and stays so.
    pub open spec fn wf(&self) -> bool {
        distinct_names(self.methods())
    }

    /// The constructor that was set last, if any since the last `build`.
    pub closed spec fn constructor(&self) -> Option<C> {
        self.ctor
    }

    /// The methods added since the last `build`, each with its name.
    pub closed spec fn methods(&self) -> Seq<(String, M)> {
        self.methods@
    }

    pub fn new() -> (r: ObjectBuilder<C, M>)
        ensures
            r.wf(),
            r.constructor() is None,
            r.methods().len() == 0,
    {
        ObjectBuilder { ctor: None, methods: Vec::new() }
    }

    /// Sets the constructor, in place of one set before.
    pub fn with_constructor(&mut self, func: C) -> (r: &mut ObjectBuilder<C, M>)
        ensures
            r.constructor() == Some(func),
            r.methods() == old(self).methods(),
            r.wf() == old(self).wf(),
            *final(self) == *final(r),
    {
        self.ctor = Some(func);
        self
    }

    /// Adds a method under a name, as the last one. Where a method of that
    /// name was added before, that one is dropped.
    pub fn with_method(&mut self, name: &str, func: M) -> (r: &mut ObjectBuilder<C, M>)
        requires
            old(self).wf(),
        ensures
            r.wf(),
            r.constructor() == old(self).constructor(),
            r.methods() == without(old(self).methods(), name@).push(r.methods().last()),
            r.methods().last().0@ == name@,
            r.methods().last().1 == func,
            *final(self) == *final(r),
    {
        let key = String::from_str(name);
        let at = position(&self.methods, &key);
        proof {
            lemma_index_of_name(self.methods@, name@);
            lemma_without(self.methods@, name@);
        }
        if at < self.methods.len() {
            let _ = self.methods.remove(at);
        }
        let ghost kept = self.methods@;
        self.methods.push((key, func));
        proof {
            assert(self.methods@ =~= kept.push(self.methods@.last()));
            assert forall|i: int, j: int| 0 <= i < j < self.methods@.len() implies (
            #[trigger] self.methods@[i]).0@ != (#[trigger] self.methods@[j]).0@ by {
                assert(self.methods@[i] == kept[i]);
                if j < kept.len() {
                    assert(self.methods@[j] == kept[j]);
                }
            }
        }
        self
    }

    /// Hands over what was collected as a template, and starts afresh.
    pub fn build(&mut self) -> (r: Object<C, M>)
        ensures
            r.constructor() == old(self).constructor(),
            r.methods() == old(self).methods(),
            r.wf() == old(self).wf(),
            final(self).wf(),
            final(self).constructor() is None,
            final(self).methods().len() == 0,
    {
        let mut object = Object { ctor: None, methods: Vec::new() };
        core::mem::swap(&mut self.ctor, &mut object.ctor);
        core::mem::swap(&mut self.methods, &mut object.methods);
        object
    }
}

} // verus!
