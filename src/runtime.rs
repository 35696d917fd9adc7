use vstd::prelude::*;

use crate::value::{json_view, JsonValue, JsonView};

verus! {

/// The value bound to `k` by the last binding of it in `vars`.
pub open spec fn vars_get(vars: Seq<(String, JsonValue)>, k: Seq<char>) -> Option<JsonView>
    decreases vars.len(),
{
    if vars.len() == 0 {
        None
    } else if vars.last().0@ == k {
        Some(json_view(vars.last().1))
    } else {
        vars_get(vars.drop_last(), k)
    }
}

/// The variables of one run of the actions, such as the loop variables `_k`
/// and `_v`.
pub struct Runtime {
    variables: Vec<(String, JsonValue)>,
}

impl View for Runtime {
    type V = Map<Seq<char>, JsonView>;

    closed spec fn view(&self) -> Map<Seq<char>, JsonView> {
        Map::new(
            |k: Seq<char>| vars_get(self.variables@, k) is Some,
            |k: Seq<char>| vars_get(self.variables@, k)->Some_0,
        )
    }
}

impl Runtime {
    pub fn new() -> (r: Runtime)
        ensures
            r@ == Map::<Seq<char>, JsonView>::empty(),
    {
        let r = Runtime { variables: Vec::new() };
        proof {
            assert(r@ =~= Map::<Seq<char>, JsonView>::empty());
        }
        r
    }

    /// The value bound to `name`, or null where it is unbound.
    pub fn var_get(&self, name: &String) -> (r: JsonValue)
        ensures
            r@ == (if self@.contains_key(name@) {
                self@[name@]
            } else {
                JsonView::Null
            }),
    {
        let mut i = self.variables.len();
        proof {
            assert(self.variables@.take(i as int) =~= self.variables@);
        }
        while i > 0
            invariant
                i <= self.variables.len(),
                vars_get(self.variables@.take(i as int), name@) == vars_get(
                    self.variables@,
                    name@,
                ),
            decreases i,
        {
            proof {
                assert(self.variables@.take(i as int).drop_last() =~= self.variables@.take(
                    i - 1,
                ));
            }
            if self.variables[i - 1].0 == *name {
                return self.variables[i - 1].1.deep_copy();
            }
            i = i - 1;
        }
        proof {
            assert(self.variables@.take(self.variables.len() as int) =~= self.variables@);
        }
        JsonValue::Null
    }

    /// Binds `name` to `value`, in place of any earlier binding of it.
    pub fn var_set(&mut self, name: &String, value: JsonValue)
        ensures
            final(self)@ == old(self)@.insert(name@, value@),
    {
        self.var_delete(name);
        let ghost before = self.variables@;
        self.variables.push((name.clone(), value));
        proof {
            assert(self.variables@.drop_last() =~= before);
            assert(self@ =~= old(self)@.remove(name@).insert(name@, value@));
            assert(old(self)@.remove(name@).insert(name@, value@) =~= old(self)@.insert(
                name@,
                value@,
            ));
        }
    }

    /// Removes the binding of `name`, if any.
    pub fn var_delete(&mut self, name: &String)
        ensures
            final(self)@ == old(self)@.remove(name@),
    {
        let ghost old_vars = self.variables@;
        let mut kept: Vec<(String, JsonValue)> = Vec::new();
        let mut i: usize = 0;
        proof {
            assert forall|k: Seq<char>| #[trigger]
                vars_get(kept@, k) == (if k == name@ {
                    None
                } else {
                    vars_get(old_vars.take(0), k)
                }) by {
                assert(old_vars.take(0).len() == 0);
            }
        }
        while i < self.variables.len()
            invariant
                self.variables@ == old_vars,
                i <= old_vars.len(),
                forall|k: Seq<char>| #[trigger]
                    vars_get(kept@, k) == (if k == name@ {
                        None
                    } else {
                        vars_get(old_vars.take(i as int), k)
                    }),
            decreases old_vars.len() - i,
        {
            let ghost prev = kept@;
            if self.variables[i].0 != *name {
                let entry = (self.variables[i].0.clone(), self.variables[i].1.deep_copy());
                kept.push(entry);
            }
            proof {
                assert forall|k: Seq<char>| #[trigger]
                    vars_get(kept@, k) == (if k == name@ {
                        None
                    } else {
                        vars_get(old_vars.take(i + 1), k)
                    }) by {
                    assert(old_vars.take(i + 1).drop_last() =~= old_vars.take(i as int));
                    assert(old_vars.take(i + 1).last() == old_vars[i as int]);
                    if kept@.len() > prev.len() {
                        assert(kept@.drop_last() =~= prev);
                    }
                    assert(vars_get(prev, k) == (if k == name@ {
                        None
                    } else {
                        vars_get(old_vars.take(i as int), k)
                    }));
                }
            }
            i = i + 1;
        }
        proof {
            assert(old_vars.take(old_vars.len() as int) =~= old_vars);
        }
        self.variables = kept;
        proof {
            assert(self@ =~= old(self)@.remove(name@));
        }
    }
}

} // verus!
