//! The fields of a submitted form: each name at most once, with its value.

use vstd::prelude::*;

use crate::text::same_text;

verus! {

/// The fields of a submitted form, each name at most once.
pub struct FormFields {
    fields: Vec<(String, String)>,
}

/// No name occurs twice in `s`.
pub open spec fn names_distinct(s: Seq<(String, String)>) -> bool {
    forall|i: int, j: int| 0 <= i < j < s.len() ==> (#[trigger] s[i]).0@ != (#[trigger] s[j]).0@
}

/// The index of the field named `name` in `s`, if there is one.
pub open spec fn has_name_at(s: Seq<(String, String)>, name: Seq<char>, i: int) -> bool {
    0 <= i < s.len() && s[i].0@ == name
}

/// Some text of `texts` is `t`.
pub open spec fn lists_text(texts: Seq<String>, t: Seq<char>) -> bool {
    exists|i: int| 0 <= i < texts.len() && #[trigger] texts[i]@ == t
}

/// The map from names to values that `s` holds.
pub open spec fn fields_map(s: Seq<(String, String)>) -> Map<Seq<char>, Seq<char>> {
    Map::new(
        |name: Seq<char>| exists|i: int| has_name_at(s, name, i),
        |name: Seq<char>| s[choose|i: int| has_name_at(s, name, i)].1@,
    )
}

impl View for FormFields {
    type V = Map<Seq<char>, Seq<char>>;

    closed spec fn view(&self) -> Map<Seq<char>, Seq<char>> {
        fields_map(self.fields@)
    }
}

impl FormFields {
    #[verifier::type_invariant]
    spec fn well_formed(self) -> bool {
        names_distinct(self.fields@)
    }

    /// A form without fields.
    pub fn new() -> (f: FormFields)
        ensures
            f@ == Map::<Seq<char>, Seq<char>>::empty(),
    {
        let f = FormFields { fields: Vec::new() };
        assert(f@ =~= Map::<Seq<char>, Seq<char>>::empty());
        f
    }

    fn find(&self, name: &str) -> (r: Option<usize>)
        ensures
            match r {
                Some(i) => has_name_at(self.fields@, name@, i as int),
                None => forall|i: int| !has_name_at(self.fields@, name@, i),
            },
    {
        let mut i: usize = 0;
        while i < self.fields.len()
            invariant
                i <= self.fields.len(),
                forall|j: int| 0 <= j < i ==> !has_name_at(self.fields@, name@, j),
            decreases self.fields.len() - i,
        {
            if same_text(self.fields[i].0.as_str(), name) {
                return Some(i);
            }
            i = i + 1;
        }
        None
    }

    /// Sets field `name` to `value`, in place of any value it had.
    pub fn insert(&mut self, name: String, value: String)
        ensures
            final(self)@ == old(self)@.insert(name@, value@),
    {
        proof {
            use_type_invariant(&*self);
        }
        let ghost old_fields = self.fields@;
        match self.find(name.as_str()) {
            Some(i) => {
                let mut fields: Vec<(String, String)> = Vec::new();
                std::mem::swap(&mut fields, &mut self.fields);
                fields.set(i, (name, value));
                proof {
                    assert forall|a: int, b: int| 0 <= a < b < fields@.len() implies (
                    #[trigger] fields@[a]).0@ != (#[trigger] fields@[b]).0@ by {
                        assert(old_fields[a].0@ != old_fields[b].0@);
                    }
                    assert forall|k: Seq<char>, j: int| #[trigger] has_name_at(fields@, k, j) implies (
                    k == name@ <==> j == i) by {
                        if j != i && k == name@ {
                            if j < i {
                                assert(old_fields[j].0@ != old_fields[i as int].0@);
                            } else {
                                assert(old_fields[i as int].0@ != old_fields[j].0@);
                            }
                        }
                    }
                    assert(fields_map(fields@) =~= fields_map(old_fields).insert(name@, value@)) by {
                        assert forall|k: Seq<char>| #[trigger] fields_map(fields@).contains_key(k)
                            <==> fields_map(old_fields).insert(name@, value@).contains_key(k) by {
                            if k != name@ {
                                if exists|j: int| has_name_at(fields@, k, j) {
                                    let j = choose|j: int| has_name_at(fields@, k, j);
                                    assert(has_name_at(old_fields, k, j));
                                }
                                if exists|j: int| has_name_at(old_fields, k, j) {
                                    let j = choose|j: int| has_name_at(old_fields, k, j);
                                    assert(has_name_at(fields@, k, j));
                                }
                            } else {
                                assert(has_name_at(fields@, k, i as int));
                            }
                        }
                        assert forall|k: Seq<char>| #[trigger] fields_map(fields@).contains_key(k)
                            implies fields_map(fields@)[k] == fields_map(old_fields).insert(
                            name@,
                            value@,
                        )[k] by {
                            let j = choose|j: int| has_name_at(fields@, k, j);
                            if k != name@ {
                                assert(has_name_at(old_fields, k, j));
                                let j2 = choose|j2: int| has_name_at(old_fields, k, j2);
                                if j2 != j {
                                    if j < j2 {
                                        assert(old_fields[j].0@ != old_fields[j2].0@);
                                    } else {
                                        assert(old_fields[j2].0@ != old_fields[j].0@);
                                    }
                                }
                            }
                        }
                    }
                }
                self.fields = fields;
            },
            None => {
                let mut fields: Vec<(String, String)> = Vec::new();
                std::mem::swap(&mut fields, &mut self.fields);
                fields.push((name, value));
                proof {
                    let n = old_fields.len() as int;
                    assert forall|a: int, b: int| 0 <= a < b < fields@.len() implies (
                    #[trigger] fields@[a]).0@ != (#[trigger] fields@[b]).0@ by {
                        if b == n {
                            assert(!has_name_at(old_fields, name@, a));
                        } else {
                            assert(old_fields[a].0@ != old_fields[b].0@);
                        }
                    }
                    assert(fields_map(fields@) =~= fields_map(old_fields).insert(name@, value@)) by {
                        assert forall|k: Seq<char>| #[trigger] fields_map(fields@).contains_key(k)
                            <==> fields_map(old_fields).insert(name@, value@).contains_key(k) by {
                            if k != name@ {
                                if exists|j: int| has_name_at(fields@, k, j) {
                                    let j = choose|j: int| has_name_at(fields@, k, j);
                                    assert(has_name_at(old_fields, k, j));
                                }
                                if exists|j: int| has_name_at(old_fields, k, j) {
                                    let j = choose|j: int| has_name_at(old_fields, k, j);
                                    assert(has_name_at(fields@, k, j));
                                }
                            } else {
                                assert(has_name_at(fields@, k, n));
                            }
                        }
                        assert forall|k: Seq<char>| #[trigger] fields_map(fields@).contains_key(k)
                            implies fields_map(fields@)[k] == fields_map(old_fields).insert(
                            name@,
                            value@,
                        )[k] by {
                            let j = choose|j: int| has_name_at(fields@, k, j);
                            if k != name@ {
                                assert(j != n);
                                assert(has_name_at(old_fields, k, j));
                                let j2 = choose|j2: int| has_name_at(old_fields, k, j2);
                                if j2 != j {
                                    if j < j2 {
                                        assert(old_fields[j].0@ != old_fields[j2].0@);
                                    } else {
                                        assert(old_fields[j2].0@ != old_fields[j].0@);
                                    }
                                }
                            } else {
                                if j != n {
                                    assert(has_name_at(old_fields, k, j));
                                }
                            }
                        }
                    }
                }
                self.fields = fields;
            },
        }
    }

    /// The value of field `name`, if the form has that field.
    pub fn get(&self, name: &str) -> (r: Option<&String>)
        ensures
            match r {
                Some(v) => self@.contains_key(name@) && v@ == self@[name@],
                None => !self@.contains_key(name@),
            },
    {
        proof {
            use_type_invariant(self);
        }
        match self.find(name) {
            Some(i) => {
                proof {
                    let j = choose|j: int| has_name_at(self.fields@, name@, j);
                    if j != i {
                        if j < i {
                            assert(self.fields@[j].0@ != self.fields@[i as int].0@);
                        } else {
                            assert(self.fields@[i as int].0@ != self.fields@[j].0@);
                        }
                    }
                }
                Some(&self.fields[i].1)
            },
            None => None,
        }
    }

    /// The names of the fields whose value is `on` (the ticked boxes), each once.
    pub fn names_with_value_on(&self) -> (r: Vec<String>)
        ensures
            forall|i: int, j: int| 0 <= i < j < r@.len() ==> r@[i]@ != r@[j]@,
            forall|name: Seq<char>|
                #[trigger] lists_text(r@, name) <==> (self@.contains_key(name) && self@[name]
                    == "on"@),
    {
        proof {
            use_type_invariant(self);
        }
        let mut r: Vec<String> = Vec::new();
        let ghost mut picked: Seq<int> = Seq::empty();
        let mut i: usize = 0;
        while i < self.fields.len()
            invariant
                names_distinct(self.fields@),
                i <= self.fields.len(),
                picked.len() == r.len(),
                forall|k: int| 0 <= k < picked.len() ==> 0 <= #[trigger] picked[k] < i,
                forall|k: int| 0 <= k < picked.len() ==> r@[k]@ == self.fields@[#[trigger] picked[k]].0@,
                forall|k: int| 0 <= k < picked.len() ==> self.fields@[#[trigger] picked[k]].1@ == "on"@,
                forall|a: int, b: int| 0 <= a < b < picked.len() ==> #[trigger] picked[a] < #[trigger] picked[b],
                forall|j: int|
                    0 <= j < i && self.fields@[j].1@ == "on"@ ==> exists|k: int|
                        0 <= k < picked.len() && #[trigger] picked[k] == j,
            decreases self.fields.len() - i,
        {
            proof {
                reveal_strlit("on");
            }
            let ghost old_picked = picked;
            if same_text(self.fields[i].1.as_str(), "on") {
                r.push(self.fields[i].0.clone());
                proof {
                    picked = picked.push(i as int);
                }
            }
            proof {
                assert forall|j: int|
                    0 <= j < i + 1 && self.fields@[j].1@ == "on"@ implies exists|k: int|
                    0 <= k < picked.len() && #[trigger] picked[k] == j by {
                    if j < i {
                        let k = choose|k: int| 0 <= k < old_picked.len() && #[trigger] old_picked[k] == j;
                        assert(picked[k] == j);
                    } else {
                        assert(picked[old_picked.len() as int] == j);
                    }
                }
            }
            i = i + 1;
        }
        proof {
            assert forall|a: int, b: int| 0 <= a < b < r@.len() implies r@[a]@ != r@[b]@ by {
                assert(picked[a] < picked[b]);
            }
            assert forall|name: Seq<char>|
                #[trigger] lists_text(r@, name) <==> (self@.contains_key(name) && self@[name]
                    == "on"@) by {
                if exists|k: int| 0 <= k < r@.len() && #[trigger] r@[k]@ == name {
                    let k = choose|k: int| 0 <= k < r@.len() && #[trigger] r@[k]@ == name;
                    let j = picked[k];
                    assert(has_name_at(self.fields@, name, j));
                    let j2 = choose|j2: int| has_name_at(self.fields@, name, j2);
                    if j2 != j {
                        if j < j2 {
                            assert(self.fields@[j].0@ != self.fields@[j2].0@);
                        } else {
                            assert(self.fields@[j2].0@ != self.fields@[j].0@);
                        }
                    }
                }
                if self@.contains_key(name) && self@[name] == "on"@ {
                    let j = choose|j: int| has_name_at(self.fields@, name, j);
                    let k = choose|k: int| 0 <= k < picked.len() && #[trigger] picked[k] == j;
                    assert(r@[k]@ == name);
                }
            }
        }
        r
    }
}

} // verus!
