use vstd::prelude::*;

use crate::error::{RuntimeError, RuntimeException};
use crate::token::{Literal, Token};
use crate::text::{concat2, concat3};

verus! {

broadcast use vstd::std_specs::vec::group_vec_axioms, vstd::seq::group_seq_axioms;

/// A scope of variables, chained to the scope that encloses it.
pub struct Environment {
    pub enclosing: Option<Box<Environment>>,
    pub values: Vec<(String, Literal)>,
}

/// One frame of variables: a map from names to values.
pub type Frame = Map<Seq<char>, Literal>;

/// The map that a list of bindings stands for (a later binding wins).
pub open spec fn frame_map(b: Seq<(Seq<char>, Literal)>) -> Frame
    decreases b.len(),
{
    if b.len() == 0 {
        Map::empty()
    } else {
        frame_map(b.drop_last()).insert(b.last().0, b.last().1)
    }
}

/// No name is bound twice in the list.
pub open spec fn unique_names(b: Seq<(Seq<char>, Literal)>) -> bool {
    forall|i: int, j: int| 0 <= i < j < b.len() ==> b[i].0 != b[j].0
}

/// The value of `name` in the innermost frame that binds it.
pub open spec fn lookup(frames: Seq<Frame>, name: Seq<char>) -> Option<Literal>
    decreases frames.len(),
{
    if frames.len() == 0 {
        None
    } else if frames[0].contains_key(name) {
        Some(frames[0][name])
    } else {
        lookup(frames.drop_first(), name)
    }
}

/// The frames after binding `name` to `value` in the innermost frame.
pub open spec fn defined(frames: Seq<Frame>, name: Seq<char>, value: Literal) -> Seq<Frame> {
    frames.update(0, frames[0].insert(name, value))
}

/// The frames after setting `name` to `value` in the innermost frame that
/// binds it; `None` when no frame binds it.
pub open spec fn assigned(frames: Seq<Frame>, name: Seq<char>, value: Literal) -> Option<Seq<Frame>>
    decreases frames.len(),
{
    if frames.len() == 0 {
        None
    } else if frames[0].contains_key(name) {
        Some(frames.update(0, frames[0].insert(name, value)))
    } else {
        match assigned(frames.drop_first(), name, value) {
            Some(rest) => Some(seq![frames[0]] + rest),
            None => None,
        }
    }
}

/// The message of a lookup or an assignment of an unbound name.
pub open spec fn undefined_message(name: Seq<char>) -> Seq<char> {
    "Undefined variable "@ + name + "."@
}

/// The message of a lookup at a depth whose frame lacks the name.
pub open spec fn not_at_depth_message(name: Seq<char>) -> Seq<char> {
    "Could not find "@ + name + " at expected depth."@
}

impl Clone for Environment {
    /// A copy of the environment: the same frames, binding by binding.
    fn clone(&self) -> (r: Self)
        ensures
            r.chain() == self.chain(),
            r.wf() == self.wf(),
            r@ == self@,
        decreases *self,
    {
        let mut values: Vec<(String, Literal)> = Vec::new();
        let n = self.values.len();
        for i in 0..n
            invariant
                n == self.values.len(),
                values.len() == i,
                forall|j: int| 0 <= j < i ==> #[trigger] values@[j] == self.values@[j],
        {
            let name = self.values[i].0.clone();
            let value = self.values[i].1.clone();
            values.push((name, value));
        }
        let enclosing = match &self.enclosing {
            None => None,
            Some(e) => Some(Box::new((**e).clone())),
        };
        let r = Environment { enclosing, values };
        assert(r.values@ =~= self.values@);
        assert(r.bindings() == self.bindings());
        r
    }

}

impl View for Environment {
    type V = Seq<Frame>;

    /// The frames of the chain, innermost first.
    open spec fn view(&self) -> Seq<Frame> {
        self.chain().map_values(|b: Seq<(Seq<char>, Literal)>| frame_map(b))
    }
}

proof fn lemma_frame_map_index(b: Seq<(Seq<char>, Literal)>, i: int)
    requires
        unique_names(b),
        0 <= i < b.len(),
    ensures
        frame_map(b).contains_key(b[i].0),
        frame_map(b)[b[i].0] == b[i].1,
    decreases b.len(),
{
    if i < b.len() - 1 {
        lemma_frame_map_index(b.drop_last(), i);
    }
}

proof fn lemma_frame_map_absent(b: Seq<(Seq<char>, Literal)>, k: Seq<char>)
    requires
        forall|i: int| 0 <= i < b.len() ==> b[i].0 != k,
    ensures
        !frame_map(b).contains_key(k),
    decreases b.len(),
{
    if b.len() > 0 {
        lemma_frame_map_absent(b.drop_last(), k);
    }
}

proof fn lemma_frame_map_update(b: Seq<(Seq<char>, Literal)>, i: int, v: Literal)
    requires
        unique_names(b),
        0 <= i < b.len(),
    ensures
        frame_map(b.update(i, (b[i].0, v))) == frame_map(b).insert(b[i].0, v),
        unique_names(b.update(i, (b[i].0, v))),
    decreases b.len(),
{
    let b2 = b.update(i, (b[i].0, v));
    if i == b.len() - 1 {
        assert(b2.drop_last() == b.drop_last());
        lemma_frame_map_absent(b.drop_last(), b[i].0);
        assert(frame_map(b2) =~= frame_map(b).insert(b[i].0, v));
    } else {
        lemma_frame_map_update(b.drop_last(), i, v);
        assert(b2.drop_last() == b.drop_last().update(i, (b[i].0, v)));
        assert(frame_map(b2) =~= frame_map(b).insert(b[i].0, v));
    }
}

impl Environment {
    /// The bindings of the innermost frame.
    pub closed spec fn bindings(&self) -> Seq<(Seq<char>, Literal)> {
        self.values@.map_values(|p: (String, Literal)| (p.0@, p.1))
    }

    /// The bindings of every frame, innermost first.
    pub closed spec fn chain(&self) -> Seq<Seq<(Seq<char>, Literal)>>
        decreases *self,
    {
        match &self.enclosing {
            None => seq![self.bindings()],
            Some(e) => seq![self.bindings()] + e.chain(),
        }
    }

    /// No frame binds a name twice.
    pub closed spec fn wf(&self) -> bool
        decreases *self,
    {
        &&& unique_names(self.bindings())
        &&& match &self.enclosing {
            None => true,
            Some(e) => e.wf(),
        }
    }

    proof fn lemma_chain(&self)
        requires
            self.wf(),
        ensures
            self.chain().len() >= 1,
            self.chain()[0] == self.bindings(),
            forall|i: int| 0 <= i < self.chain().len() ==> unique_names(#[trigger] self.chain()[i]),
            self.enclosing is None ==> self.chain().len() == 1,
            self.enclosing matches Some(e) ==> e.wf() && self.chain().drop_first() == e.chain(),
        decreases *self,
    {
        match &self.enclosing {
            None => {},
            Some(e) => {
                e.lemma_chain();
                assert(self.chain().drop_first() == e.chain());
                assert forall|i: int| 0 <= i < self.chain().len() implies unique_names(#[trigger] self.chain()[i]) by {
                    if i > 0 {
                        assert(self.chain()[i] == e.chain()[i - 1]);
                    }
                }
            },
        }
    }

    proof fn lemma_view(&self)
        requires
            self.wf(),
        ensures
            self@.len() == self.chain().len(),
            self@.len() >= 1,
            self@[0] == frame_map(self.bindings()),
            self.enclosing is None ==> self@.len() == 1,
            self.enclosing matches Some(e) ==> e.wf() && self@.drop_first() == e@,
    {
        self.lemma_chain();
        match &self.enclosing {
            None => {},
            Some(e) => {
                assert(self@.drop_first() =~= e@);
            },
        }
    }

    /// A fresh global scope with no variables.
    pub fn new() -> (r: Self)
        ensures
            r.wf(),
            r@ == seq![Map::<Seq<char>, Literal>::empty()],
    {
        let r = Self { enclosing: None, values: Vec::new() };
        assert(r.bindings() =~= Seq::empty());
        assert(r@ =~= seq![Map::<Seq<char>, Literal>::empty()]);
        r
    }

    /// A fresh scope inside `enclosing`.
    pub fn with_enclosing(enclosing: Environment) -> (r: Self)
        requires
            enclosing.wf(),
        ensures
            r.wf(),
            r@ == seq![Map::<Seq<char>, Literal>::empty()] + enclosing@,
            r.chain() == seq![Seq::<(Seq<char>, Literal)>::empty()] + enclosing.chain(),
    {
        let r = Self { enclosing: Some(Box::new(enclosing)), values: Vec::new() };
        assert(r.bindings() =~= Seq::empty());
        proof {
            r.lemma_view();
        }
        assert(r@ =~= seq![Map::<Seq<char>, Literal>::empty()] + enclosing@);
        r
    }

    /// Index of `name` in the innermost frame.
    fn position(&self, name: &String) -> (r: Option<usize>)
        requires
            unique_names(self.bindings()),
        ensures
            match r {
                Some(i) => i < self.values@.len() && self.bindings()[i as int].0 == name@,
                None => forall|i: int| 0 <= i < self.bindings().len() ==> self.bindings()[i].0 != name@,
            },
    {
        let n = self.values.len();
        for i in 0..n
            invariant
                n == self.values.len(),
                forall|j: int| 0 <= j < i ==> self.bindings()[j].0 != name@,
        {
            if self.values[i].0 == *name {
                return Some(i);
            }
        }
        None
    }

    /// Binds `name` to `value` in the innermost frame.
    pub fn define(&mut self, name: String, value: Literal)
        requires
            old(self).wf(),
        ensures
            final(self).wf(),
            final(self)@ == defined(old(self)@, name@, value),
            final(self).chain().len() == old(self).chain().len(),
            final(self).enclosing == old(self).enclosing,
    {
        proof {
            self.lemma_view();
        }
        let ghost b = self.bindings();
        let ghost name_v = name@;
        match self.position(&name) {
            Some(i) => {
                self.values.set(i, (name, value));
                proof {
                    assert(self.bindings() =~= b.update(i as int, (b[i as int].0, value)));
                    lemma_frame_map_update(b, i as int, value);
                }
            },
            None => {
                self.values.push((name, value));
                proof {
                    assert(self.bindings() =~= b.push((name_v, value)));
                    assert(self.bindings().drop_last() =~= b);
                }
            },
        }
        proof {
            self.lemma_view();
            match &self.enclosing {
                None => {
                    assert(self@ =~= defined(old(self)@, name_v, value));
                },
                Some(e) => {
                    assert(self@ =~= defined(old(self)@, name_v, value)) by {
                        assert(self@.drop_first() == old(self)@.drop_first());
                    }
                },
            }
        }
    }

    /// Sets `name` to `value` in the innermost frame that binds it.
    pub fn assign(&mut self, name: Token, value: Literal) -> (r: Result<(), RuntimeException>)
        requires
            old(self).wf(),
        ensures
            final(self).wf(),
            final(self).chain().len() == old(self).chain().len(),
            match assigned(old(self)@, name.lexeme@, value) {
                Some(frames) => r is Ok && final(self)@ == frames,
                None => final(self)@ == old(self)@ && *final(self) == *old(self) && (r matches Err(RuntimeException::Base(e))
                    && e.token == name && e.message@ == undefined_message(name.lexeme@)),
            },
        decreases old(self).chain().len(),
    {
        proof {
            self.lemma_view();
        }
        let ghost name_v = name.lexeme@;
        let ghost b = self.bindings();
        match self.position(&name.lexeme) {
            Some(i) => {
                let key = name.lexeme;
                self.values.set(i, (key, value));
                proof {
                    assert(self.bindings() =~= b.update(i as int, (b[i as int].0, value)));
                    lemma_frame_map_update(b, i as int, value);
                    lemma_frame_map_index(b, i as int);
                    self.lemma_view();
                    match &self.enclosing {
                        None => {},
                        Some(e) => {
                            assert(self@.drop_first() == old(self)@.drop_first());
                        },
                    }
                    assert(self@ =~= old(self)@.update(0, old(self)@[0].insert(name_v, value)));
                }
                Ok(())
            },
            None => {
                proof {
                    lemma_frame_map_absent(b, name_v);
                }
                match self.enclosing.take() {
                    Some(mut enclosing) => {
                        proof {
                            old(self).lemma_chain();
                        }
                        let r = enclosing.assign(name, value);
                        self.enclosing = Some(enclosing);
                        proof {
                            self.lemma_chain();
                            self.lemma_view();
                            old(self).lemma_view();
                            match assigned(old(self)@.drop_first(), name_v, value) {
                                Some(rest) => {
                                    assert(self@ =~= seq![old(self)@[0]] + rest);
                                },
                                None => {
                                    assert(self.bindings() == old(self).bindings());
                                    assert(self@[0] == old(self)@[0]);
                                    assert(self@.drop_first() == old(self)@.drop_first());
                                    assert(self@.len() == old(self)@.len());
                                    assert forall|k: int| 0 <= k < self@.len() implies self@[k] == old(self)@[k] by {
                                        if k > 0 {
                                            assert(self@[k] == self@.drop_first()[k - 1]);
                                            assert(old(self)@[k] == old(self)@.drop_first()[k - 1]);
                                        }
                                    }
                                    assert(self@ =~= old(self)@);
                                },
                            }
                        }
                        r
                    },
                    None => {
                        proof {
                            assert(old(self)@.drop_first() =~= Seq::<Frame>::empty());
                        }
                        let message = concat3("Undefined variable ", name.lexeme.as_str(), ".");
                        Err(RuntimeException::Base(RuntimeError::new(name, message)))
                    },
                }
            },
        }
    }
}

impl Environment {
    /// The value bound to `name` in the innermost frame, if any.
    fn frame_value(&self, name: &String) -> (r: Option<Literal>)
        requires
            self.wf(),
        ensures
            r == (if self@[0].contains_key(name@) { Some(self@[0][name@]) } else { None::<Literal> }),
    {
        proof {
            self.lemma_view();
        }
        match self.position(name) {
            Some(i) => {
                proof {
                    lemma_frame_map_index(self.bindings(), i as int);
                }
                Some(self.values[i].1.clone())
            },
            None => {
                proof {
                    lemma_frame_map_absent(self.bindings(), name@);
                }
                None
            },
        }
    }

    /// The value of `name` in the innermost frame that binds it.
    pub fn get(&self, name: Token) -> (r: Result<Literal, RuntimeException>)
        requires
            self.wf(),
        ensures
            match lookup(self@, name.lexeme@) {
                Some(v) => r == Ok::<Literal, RuntimeException>(v),
                None => r matches Err(RuntimeException::Base(e)) && e.token == name
                    && e.message@ == undefined_message(name.lexeme@),
            },
        decreases self.chain().len(),
    {
        proof {
            self.lemma_view();
            self.lemma_chain();
        }
        match self.frame_value(&name.lexeme) {
            Some(v) => Ok(v),
            None => match &self.enclosing {
                Some(env) => env.get(name),
                None => {
                    proof {
                        assert(self@.drop_first() =~= Seq::<Frame>::empty());
                    }
                    let message = concat3("Undefined variable ", name.lexeme.as_str(), ".");
                    Err(RuntimeException::base(name, message))
                },
            },
        }
    }

    /// A copy of the environment `distance` frames out.
    fn ancestor(&self, distance: u32) -> (r: Environment)
        requires
            self.wf(),
            distance < self@.len(),
        ensures
            r.wf(),
            r@ == self@.skip(distance as int),
        decreases distance,
    {
        proof {
            self.lemma_view();
        }
        if distance == 0 {
            let r = self.clone();
            assert(self@.skip(0) =~= self@);
            r
        } else {
            match &self.enclosing {
                Some(e) => {
                    let r = e.ancestor(distance - 1);
                    assert(self@.skip(distance as int) =~= e@.skip(distance - 1));
                    r
                },
                None => {
                    proof {
                        assert(false);
                    }
                    self.clone()
                },
            }
        }
    }

    /// The value of `name` in the frame `distance` frames out.
    pub fn get_at(&self, distance: u32, name: String) -> (r: Result<Literal, RuntimeException>)
        requires
            self.wf(),
            distance < self@.len(),
        ensures
            if self@[distance as int].contains_key(name@) {
                r == Ok::<Literal, RuntimeException>(self@[distance as int][name@])
            } else {
                r matches Err(RuntimeException::Base(e)) && e.token == Token::from_string_spec(name)
                    && e.message@ == not_at_depth_message(name@)
            },
    {
        let a = self.ancestor(distance);
        proof {
            a.lemma_view();
        }
        match a.frame_value(&name) {
            Some(v) => Ok(v),
            None => {
                let message = concat3("Could not find ", name.as_str(), " at expected depth.");
                Err(RuntimeException::base(Token::from_string(name), message))
            },
        }
    }

    /// Binds `name` in a copy of the frame `distance` frames out; the copy is
    /// then dropped, so the environment itself is left as it was.
    pub fn assign_at(&mut self, distance: u32, name: Token, value: Literal) -> (r: Result<(), RuntimeException>)
        requires
            old(self).wf(),
            distance < old(self)@.len(),
        ensures
            r is Ok,
            *final(self) == *old(self),
    {
        let mut a = self.ancestor(distance);
        a.define(name.lexeme, value);
        Ok(())
    }

    /// `env` with `enclosing` put after its outermost frame, and `depth` plus
    /// the number of links walked to reach that frame.
    pub fn wrap(env: Environment, enclosing: Environment, depth: u32) -> (r: (Self, u32))
        requires
            env.wf(),
            enclosing.wf(),
            depth + env@.len() - 1 <= u32::MAX,
        ensures
            r.0.wf(),
            r.0@ == env@ + enclosing@,
            r.1 == depth + env@.len() - 1,
        decreases env@.len(),
    {
        proof {
            env.lemma_view();
        }
        let Environment { enclosing: env_enclosing, values } = env;
        match env_enclosing {
            None => {
                let r = Environment { enclosing: Some(Box::new(enclosing)), values };
                proof {
                    r.lemma_view();
                    assert(r.bindings() == env.bindings());
                    assert(r@ =~= env@ + enclosing@);
                }
                (r, depth)
            },
            Some(enc) => {
                let (e, d) = Environment::wrap(*enc, enclosing, depth + 1);
                let r = Environment { enclosing: Some(Box::new(e)), values };
                proof {
                    r.lemma_view();
                    assert(r.bindings() == env.bindings());
                    assert(r@ =~= env@ + enclosing@) by {
                        assert(r@.drop_first() == env@.drop_first() + enclosing@);
                        assert(r@[0] == env@[0]);
                        assert(r@ =~= seq![r@[0]] + r@.drop_first());
                        assert(env@ + enclosing@ =~= seq![env@[0]] + (env@.drop_first() + enclosing@));
                    }
                }
                (r, d)
            },
        }
    }

    /// `env` cut after the frame `depth` links out.
    pub fn unwrap(env: Environment, depth: u32) -> (r: Self)
        requires
            env.wf(),
            depth < env@.len(),
        ensures
            r.wf(),
            r@ == env@.take(depth + 1),
        decreases depth,
    {
        proof {
            env.lemma_view();
        }
        let Environment { enclosing, values } = env;
        if depth == 0 {
            let r = Environment { enclosing: None, values };
            proof {
                r.lemma_view();
                assert(r.bindings() == env.bindings());
                assert(r@ =~= env@.take(1));
            }
            r
        } else {
            match enclosing {
                Some(enc) => {
                    let e = Environment::unwrap(*enc, depth - 1);
                    let r = Environment { enclosing: Some(Box::new(e)), values };
                    proof {
                        r.lemma_view();
                        assert(r.bindings() == env.bindings());
                        assert(r@ =~= env@.take(depth + 1)) by {
                            assert(r@.drop_first() == env@.drop_first().take(depth as int));
                            assert(r@[0] == env@[0]);
                            assert(r@ =~= seq![r@[0]] + r@.drop_first());
                            assert(env@.take(depth + 1) =~= seq![env@[0]] + env@.drop_first().take(depth as int));
                        }
                    }
                    r
                },
                None => {
                    proof {
                        assert(false);
                    }
                    Environment { enclosing: None, values }
                },
            }
        }
    }
}

impl Environment {
    /// The scope that encloses a well-formed environment is well formed and
    /// holds its outer frames.
    pub proof fn lemma_enclosing(&self)
        requires
            self.wf(),
        ensures
            self@.len() >= 1,
            self.enclosing is None <==> self@.len() == 1,
            self.enclosing matches Some(e) ==> e.wf() && e@ == self@.drop_first(),
    {
        self.lemma_view();
    }

    /// Whether the environment has at most `limit` frames.
    pub fn fits_depth(&self, limit: u32) -> (r: bool)
        requires
            self.wf(),
        ensures
            r == (self@.len() <= limit),
        decreases self.chain().len(),
    {
        proof {
            self.lemma_view();
            self.lemma_chain();
        }
        if limit == 0 {
            return false;
        }
        match &self.enclosing {
            None => true,
            Some(e) => e.fits_depth(limit - 1),
        }
    }
}

impl Default for Environment {
    fn default() -> (r: Self)
        ensures
            r.wf(),
            r@ == seq![Map::<Seq<char>, Literal>::empty()],
    {
        Self::new()
    }
}

/// A read after a definition gives back the value defined.
pub proof fn law_lookup_after_define(frames: Seq<Frame>, name: Seq<char>, value: Literal)
    requires
        frames.len() > 0,
    ensures
        lookup(defined(frames, name, value), name) == Some(value),
{
}

/// A definition leaves every other name as it was.
pub proof fn law_define_leaves_others(frames: Seq<Frame>, name: Seq<char>, other: Seq<char>, value: Literal)
    requires
        frames.len() > 0,
        other != name,
    ensures
        lookup(defined(frames, name, value), other) == lookup(frames, other),
{
    let g = defined(frames, name, value);
    if !frames[0].contains_key(other) {
        assert(g.drop_first() == frames.drop_first());
    }
}

/// An assignment succeeds exactly when some frame binds the name.
pub proof fn law_assign_succeeds_iff_bound(frames: Seq<Frame>, name: Seq<char>, value: Literal)
    ensures
        (assigned(frames, name, value) is Some) == (lookup(frames, name) is Some),
    decreases frames.len(),
{
    if frames.len() > 0 && !frames[0].contains_key(name) {
        law_assign_succeeds_iff_bound(frames.drop_first(), name, value);
    }
}

/// A read after a successful assignment gives back the value assigned.
pub proof fn law_lookup_after_assign(frames: Seq<Frame>, name: Seq<char>, value: Literal)
    requires
        assigned(frames, name, value) is Some,
    ensures
        lookup(assigned(frames, name, value).unwrap(), name) == Some(value),
    decreases frames.len(),
{
    if !frames[0].contains_key(name) {
        let rest = assigned(frames.drop_first(), name, value).unwrap();
        law_lookup_after_assign(frames.drop_first(), name, value);
        assert((seq![frames[0]] + rest).drop_first() == rest);
    }
}

/// An assignment leaves every other name as it was.
pub proof fn law_assign_leaves_others(frames: Seq<Frame>, name: Seq<char>, other: Seq<char>, value: Literal)
    requires
        assigned(frames, name, value) is Some,
        other != name,
    ensures
        lookup(assigned(frames, name, value).unwrap(), other) == lookup(frames, other),
    decreases frames.len(),
{
    let g = assigned(frames, name, value).unwrap();
    if frames[0].contains_key(name) {
        if !frames[0].contains_key(other) {
            assert(g.drop_first() == frames.drop_first());
        }
    } else {
        let rest = assigned(frames.drop_first(), name, value).unwrap();
        law_assign_leaves_others(frames.drop_first(), name, other, value);
        assert(g.drop_first() == rest);
    }
}

/// Cutting a wrapped environment at the depth that `wrap` returns (from a
/// start of 0) gives back the environment that was wrapped.
pub proof fn law_unwrap_undoes_wrap(env: Seq<Frame>, enclosing: Seq<Frame>)
    requires
        env.len() > 0,
    ensures
        (env + enclosing).take((0 + env.len() - 1) + 1) == env,
{
    assert((env + enclosing).take(env.len() as int) =~= env);
}

} // verus!
