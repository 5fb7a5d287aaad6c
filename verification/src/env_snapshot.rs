//! A sample of the process environment, taken once by the caller before a
//! probe runs. The probe reads configuration only from such a snapshot, never
//! from process-wide state.
use vstd::prelude::*;

verus! {

/// One environment variable.
pub struct EnvVar {
    pub name: String,
    pub value: String,
}

/// The mathematical content of an [`EnvVar`].
pub struct EnvVarView {
    pub name: Seq<char>,
    pub value: Seq<char>,
}

impl View for EnvVar {
    type V = EnvVarView;

    open spec fn view(&self) -> EnvVarView {
        EnvVarView { name: self.name@, value: self.value@ }
    }
}

/// The environment variables visible to the probe.
pub struct EnvSnapshot {
    pub vars: Vec<EnvVar>,
}

impl View for EnvSnapshot {
    type V = Seq<EnvVarView>;

    open spec fn view(&self) -> Seq<EnvVarView> {
        self.vars@.map_values(|v: EnvVar| v@)
    }
}

/// The value of the first variable of the given name, if any is set.
pub open spec fn env_lookup(vars: Seq<EnvVarView>, name: Seq<char>) -> Option<Seq<char>>
    decreases vars.len(),
{
    if vars.len() == 0 {
        None
    } else if vars[0].name == name {
        Some(vars[0].value)
    } else {
        env_lookup(vars.drop_first(), name)
    }
}

/// A variable of the given name is set.
pub open spec fn env_set(vars: Seq<EnvVarView>, name: Seq<char>) -> bool {
    env_lookup(vars, name) is Some
}

impl EnvSnapshot {
    /// A snapshot with no variables set.
    pub fn new() -> (r: EnvSnapshot)
        ensures
            r@ == Seq::<EnvVarView>::empty(),
    {
        let r = EnvSnapshot { vars: Vec::new() };
        proof {
            assert(r@ =~= Seq::<EnvVarView>::empty());
        }
        r
    }

    /// Records one variable; an earlier variable of the same name keeps
    /// priority for lookups.
    pub fn push_var(&mut self, name: &str, value: &str)
        ensures
            final(self)@ == old(self)@.push(
                EnvVarView { name: name@, value: value@ },
            ),
    {
        self.vars.push(EnvVar { name: String::from_str(name), value: String::from_str(value) });
        proof {
            assert(self@ =~= old(self)@.push(EnvVarView { name: name@, value: value@ }));
        }
    }

    /// Looks the variable up by name.
    pub fn get<'a>(&'a self, name: &str) -> (r: Option<&'a String>)
        ensures
            match r {
                Some(v) => env_lookup(self@, name@) == Some(v@),
                None => env_lookup(self@, name@) is None,
            },
    {
        let n = self.vars.len();
        let mut i: usize = 0;
        proof {
            assert(self@.skip(0) =~= self@);
        }
        while i < n
            invariant
                n == self.vars@.len(),
                i <= n,
                env_lookup(self@, name@) == env_lookup(self@.skip(i as int), name@),
            decreases n - i,
        {
            proof {
                assert(self@.skip(i as int)[0] == self@[i as int]);
                assert(self@.skip(i as int).drop_first() =~= self@.skip(i + 1));
            }
            if crate::text::str_eq(self.vars[i].name.as_str(), name) {
                return Some(&self.vars[i].value);
            }
            i += 1;
        }
        proof {
            assert(self@.skip(n as int) =~= Seq::<EnvVarView>::empty());
        }
        None
    }

    /// Whether a variable of the given name is set at all.
    pub fn is_set(&self, name: &str) -> (r: bool)
        ensures
            r == env_set(self@, name@),
    {
        match self.get(name) {
            Some(_) => true,
            None => false,
        }
    }
}

} // verus!
