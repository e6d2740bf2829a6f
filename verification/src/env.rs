//! The environment that commands run in: variables, the working directory,
//! and the flag by which a command asks the shell to stop.
use vstd::prelude::*;

verus! {

/// The mathematical value of an [`Environment`].
pub struct EnvironmentView {
    /// The value of each variable that is set.
    pub vars: Map<Seq<char>, Seq<char>>,
    /// The working directory.
    pub current_dir: Seq<char>,
    /// Whether a command has asked the shell to stop.
    pub should_exit: bool,
}

/// The variables that a list of bindings sets: a later binding of a name
/// replaces an earlier one.
pub open spec fn bindings(pairs: Seq<(String, String)>) -> Map<Seq<char>, Seq<char>>
    decreases pairs.len(),
{
    if pairs.len() == 0 {
        Map::empty()
    } else {
        bindings(pairs.drop_last()).insert(pairs.last().0@, pairs.last().1@)
    }
}

/// No name is bound twice.
pub open spec fn distinct_names(pairs: Seq<(String, String)>) -> bool {
    forall|i: int, j: int|
        0 <= i < j < pairs.len() ==> (#[trigger] pairs[i]).0@ != (#[trigger] pairs[j]).0@
}

/// A name that no binding mentions is not set.
pub proof fn lemma_unbound(pairs: Seq<(String, String)>, name: Seq<char>)
    requires
        forall|i: int| 0 <= i < pairs.len() ==> (#[trigger] pairs[i]).0@ != name,
    ensures
        !bindings(pairs).contains_key(name),
    decreases pairs.len(),
{
    if pairs.len() > 0 {
        lemma_unbound(pairs.drop_last(), name);
    }
}

/// Where no name is bound twice, each binding gives its name its value.
pub proof fn lemma_bound(pairs: Seq<(String, String)>, i: int)
    requires
        distinct_names(pairs),
        0 <= i < pairs.len(),
    ensures
        bindings(pairs).contains_key(pairs[i].0@),
        bindings(pairs)[pairs[i].0@] == pairs[i].1@,
    decreases pairs.len(),
{
    if i < pairs.len() - 1 {
        lemma_bound(pairs.drop_last(), i);
        assert(pairs.drop_last()[i] == pairs[i]);
        assert(pairs[i].0@ != pairs[pairs.len() - 1].0@);
    }
}

/// Where no name is bound twice, replacing the value of one binding sets
/// its name to the new value and leaves the other variables as they are.
pub proof fn lemma_rebound(pairs: Seq<(String, String)>, i: int, pair: (String, String))
    requires
        distinct_names(pairs),
        0 <= i < pairs.len(),
        pair.0@ == pairs[i].0@,
    ensures
        distinct_names(pairs.update(i, pair)),
        bindings(pairs.update(i, pair)) == bindings(pairs).insert(pair.0@, pair.1@),
    decreases pairs.len(),
{
    let updated = pairs.update(i, pair);
    assert(distinct_names(updated)) by {
        assert forall|a: int, b: int| 0 <= a < b < updated.len() implies (#[trigger] updated[a]).0@
            != (#[trigger] updated[b]).0@ by {
            assert(pairs[a].0@ != pairs[b].0@);
        }
    }
    if i == pairs.len() - 1 {
        assert(updated.drop_last() =~= pairs.drop_last());
        assert(bindings(updated) =~= bindings(pairs).insert(pair.0@, pair.1@));
    } else {
        let last = pairs.last();
        assert(updated.drop_last() =~= pairs.drop_last().update(i, pair));
        assert(distinct_names(pairs.drop_last())) by {
            assert forall|a: int, b: int| 0 <= a < b < pairs.drop_last().len() implies (
            #[trigger] pairs.drop_last()[a]).0@ != (#[trigger] pairs.drop_last()[b]).0@ by {
                assert(pairs[a].0@ != pairs[b].0@);
            }
        }
        assert(pairs.drop_last()[i] == pairs[i]);
        lemma_rebound(pairs.drop_last(), i, pair);
        assert(pairs[i].0@ != pairs[pairs.len() - 1].0@);
        assert(updated.last() == last);
        assert(bindings(updated) =~= bindings(pairs).insert(pair.0@, pair.1@));
    }
}

/// The environment of a shell session.
#[derive(Debug)]
pub struct Environment {
    /// The variables, each name bound once. They are kept in a vector: of
    /// a hash map vstd states something only where the hashing of the keys
    /// is known to follow their equality, which it is not for `String`.
    vars: Vec<(String, String)>,
    current_dir: String,
    should_exit: bool,
}

impl View for Environment {
    type V = EnvironmentView;

    closed spec fn view(&self) -> EnvironmentView {
        EnvironmentView {
            vars: bindings(self.vars@),
            current_dir: self.current_dir@,
            should_exit: self.should_exit,
        }
    }
}

impl Clone for Environment {
    /// A copy with the same variables, directory and flag.
    fn clone(&self) -> (copy: Environment)
        ensures
            copy@ == self@,
    {
        proof {
            use_type_invariant(self);
        }
        let mut vars: Vec<(String, String)> = Vec::new();
        let mut i: usize = 0;
        while i < self.vars.len()
            invariant
                i <= self.vars@.len(),
                vars@.len() == i,
                forall|j: int|
                    0 <= j < i ==> (#[trigger] vars@[j]).0@ == self.vars@[j].0@ && vars@[j].1@
                        == self.vars@[j].1@,
            decreases self.vars@.len() - i,
        {
            let name = self.vars[i].0.clone();
            let value = self.vars[i].1.clone();
            vars.push((name, value));
            i += 1;
        }
        proof {
            lemma_same_bindings(vars@, self.vars@);
            assert(distinct_names(vars@)) by {
                assert forall|a: int, b: int| 0 <= a < b < vars@.len() implies (
                #[trigger] vars@[a]).0@ != (#[trigger] vars@[b]).0@ by {
                    assert(self.vars@[a].0@ != self.vars@[b].0@);
                }
            }
        }
        Environment {
            vars,
            current_dir: self.current_dir.clone(),
            should_exit: self.should_exit,
        }
    }
}

/// Lists of bindings with the same names and values, one for one, set the
/// same variables.
proof fn lemma_same_bindings(a: Seq<(String, String)>, b: Seq<(String, String)>)
    requires
        a.len() == b.len(),
        forall|j: int|
            0 <= j < a.len() ==> (#[trigger] a[j]).0@ == b[j].0@ && a[j].1@ == b[j].1@,
    ensures
        bindings(a) == bindings(b),
    decreases a.len(),
{
    if a.len() > 0 {
        assert(a.last().0@ == b.last().0@ && a.last().1@ == b.last().1@);
        assert forall|j: int| 0 <= j < a.drop_last().len() implies (#[trigger] a.drop_last()[j]).0@
            == b.drop_last()[j].0@ && a.drop_last()[j].1@ == b.drop_last()[j].1@ by {
            assert(a[j].0@ == b[j].0@);
        }
        lemma_same_bindings(a.drop_last(), b.drop_last());
    }
}

impl Environment {
    #[verifier::type_invariant]
    spec fn names_are_distinct(&self) -> bool {
        distinct_names(self.vars@)
    }

    /// An environment with the given variables, working directory and a
    /// clear exit flag. Where `vars` binds a name more than once, the last
    /// binding stands.
    pub fn new(vars: Vec<(String, String)>, current_dir: String) -> (env: Environment)
        ensures
            env@.vars == bindings(vars@),
            env@.current_dir == current_dir@,
            !env@.should_exit,
    {
        let mut env = Environment { vars: Vec::new(), current_dir, should_exit: false };
        let mut i: usize = 0;
        while i < vars.len()
            invariant
                i <= vars@.len(),
                env@.vars == bindings(vars@.take(i as int)),
                env@.current_dir == current_dir@,
                !env@.should_exit,
            decreases vars@.len() - i,
        {
            env.set_var(vars[i].0.as_str(), vars[i].1.as_str());
            assert(vars@.take(i + 1).drop_last() =~= vars@.take(i as int));
            i += 1;
        }
        assert(vars@.take(i as int) =~= vars@);
        env
    }

    /// The value of a variable, if it is set.
    pub fn get_var(&self, key: &str) -> (value: Option<String>)
        ensures
            match value {
                Some(v) => self@.vars.contains_key(key@) && v@ == self@.vars[key@],
                None => !self@.vars.contains_key(key@),
            },
    {
        proof {
            use_type_invariant(self);
        }
        let mut i: usize = 0;
        while i < self.vars.len()
            invariant
                i <= self.vars@.len(),
                distinct_names(self.vars@),
                forall|j: int| 0 <= j < i ==> (#[trigger] self.vars@[j]).0@ != key@,
            decreases self.vars@.len() - i,
        {
            if same_text(self.vars[i].0.as_str(), key) {
                proof {
                    lemma_bound(self.vars@, i as int);
                }
                return Some(self.vars[i].1.clone());
            }
            i += 1;
        }
        proof {
            lemma_unbound(self.vars@, key@);
        }
        None
    }

    /// Sets a variable, replacing the value that it had.
    pub fn set_var(&mut self, key: &str, val: &str)
        ensures
            final(self)@.vars == old(self)@.vars.insert(key@, val@),
            final(self)@.current_dir == old(self)@.current_dir,
            final(self)@.should_exit == old(self)@.should_exit,
    {
        proof {
            use_type_invariant(&*self);
        }
        let mut vars: Vec<(String, String)> = Vec::new();
        std::mem::swap(&mut self.vars, &mut vars);
        let pair = (key.to_owned(), val.to_owned());
        let mut i: usize = 0;
        while i < vars.len()
            invariant
                i <= vars@.len(),
                vars@ == old(self).vars@,
                forall|j: int| 0 <= j < i ==> (#[trigger] vars@[j]).0@ != key@,
            ensures
                i < vars@.len() ==> vars@[i as int].0@ == key@,
            decreases vars@.len() - i,
        {
            if same_text(vars[i].0.as_str(), key) {
                break ;
            }
            i += 1;
        }
        if i < vars.len() {
            proof {
                lemma_rebound(vars@, i as int, pair);
            }
            vars.set(i, pair);
        } else {
            vars.push(pair);
            proof {
                assert(vars@.drop_last() =~= old(self).vars@);
                assert(distinct_names(vars@)) by {
                    assert forall|a: int, b: int| 0 <= a < b < vars@.len() implies (
                    #[trigger] vars@[a]).0@ != (#[trigger] vars@[b]).0@ by {
                        if b < old(self).vars@.len() {
                            assert(old(self).vars@[a].0@ != old(self).vars@[b].0@);
                        } else {
                            assert(old(self).vars@[a].0@ != key@);
                        }
                    }
                }
            }
        }
        self.vars = vars;
    }

    /// The variables, as pairs of name and value, each name once.
    pub fn vars(&self) -> (pairs: Vec<(String, String)>)
        ensures
            bindings(pairs@) == self@.vars,
            distinct_names(pairs@),
    {
        let copy = self.clone();
        proof {
            use_type_invariant(&copy);
        }
        copy.vars
    }

    /// The working directory.
    pub fn current_dir(&self) -> (dir: &str)
        ensures
            dir@ == self@.current_dir,
    {
        self.current_dir.as_str()
    }

    /// Changes the working directory.
    pub fn set_current_dir(&mut self, dir: String)
        ensures
            final(self)@.current_dir == dir@,
            final(self)@.vars == old(self)@.vars,
            final(self)@.should_exit == old(self)@.should_exit,
    {
        proof {
            use_type_invariant(&*self);
        }
        self.current_dir = dir;
    }

    /// Whether a command has asked the shell to stop.
    pub fn should_exit(&self) -> (flag: bool)
        ensures
            flag == self@.should_exit,
    {
        self.should_exit
    }

    /// Sets or clears the request to stop the shell.
    pub fn set_should_exit(&mut self, flag: bool)
        ensures
            final(self)@.should_exit == flag,
            final(self)@.vars == old(self)@.vars,
            final(self)@.current_dir == old(self)@.current_dir,
    {
        proof {
            use_type_invariant(&*self);
        }
        self.should_exit = flag;
    }
}

/// Whether two strings hold the same characters.
pub fn same_text(a: &str, b: &str) -> (same: bool)
    ensures
        same == (a@ == b@),
{
    let left = a.to_owned();
    let right = b.to_owned();
    left == right
}

} // verus!
