use vstd::prelude::*;
use vstd::string::*;

verus! {

/// A path component: never empty, never holding the separator.
pub open spec fn valid_component(c: Seq<char>) -> bool {
    &&& c.len() > 0
    &&& forall|i: int| 0 <= i < c.len() ==> c[i] != '/'
}

/// A location in the secret tree: an ordered sequence of components. The
/// root is the empty sequence. Paths are value objects: they are extended by
/// `pushed`, which leaves the original untouched.
pub struct Path {
    pub components: Vec<String>,
}

impl View for Path {
    type V = Seq<Seq<char>>;

    open spec fn view(&self) -> Seq<Seq<char>> {
        self.components.deep_view()
    }
}

impl DeepView for Path {
    type V = Seq<Seq<char>>;

    open spec fn deep_view(&self) -> Seq<Seq<char>> {
        self.view()
    }
}

/// What joining components with the separator yields.
pub open spec fn render_comps(cs: Seq<Seq<char>>) -> Seq<char>
    decreases cs.len(),
{
    if cs.len() == 0 {
        Seq::empty()
    } else if cs.len() == 1 {
        cs[0]
    } else {
        render_comps(cs.drop_last()) + seq!['/'] + cs.last()
    }
}

impl Path {
    /// Every component obeys the component invariant.
    pub open spec fn wf(&self) -> bool {
        forall|i: int| 0 <= i < self@.len() ==> valid_component(#[trigger] self@[i])
    }

    /// The root path: no components.
    pub fn new() -> (r: Self)
        ensures
            r@ == Seq::<Seq<char>>::empty(),
            r.wf(),
    {
        let r = Path { components: Vec::new() };
        proof {
            assert(r@ =~= Seq::<Seq<char>>::empty());
        }
        r
    }

    /// Append one component in place.
    pub fn push(&mut self, comp: &str)
        requires
            valid_component(comp@),
        ensures
            final(self)@ == old(self)@.push(comp@),
            old(self).wf() ==> final(self).wf(),
    {
        self.components.push(comp.to_owned());
        proof {
            assert(self@ =~= old(self)@.push(comp@));
        }
    }

    /// A copy of this path with one more component; `self` is unchanged.
    pub fn pushed(&self, comp: &str) -> (r: Self)
        requires
            valid_component(comp@),
        ensures
            r@ == self@.push(comp@),
            self.wf() ==> r.wf(),
    {
        let mut v: Vec<String> = Vec::new();
        let n = self.components.len();
        let mut i: usize = 0;
        while i < n
            invariant
                i <= n,
                n == self.components@.len(),
                v.deep_view() =~= self@.take(i as int),
            decreases n - i,
        {
            let ghost pre = v.deep_view();
            let ghost prev = v@;
            let c = self.components[i].clone();
            v.push(c);
            proof {
                assert(prev.len() == pre.len());
                assert forall|k: int| 0 <= k < i + 1 implies v.deep_view()[k] == self@.take(
                    i + 1,
                )[k] by {
                    if k < i {
                        assert(v@[k] == prev[k]);
                        assert(v.deep_view()[k] == pre[k]);
                    } else {
                        assert(v@[k] == v@.last());
                    }
                }
                assert(v.deep_view() =~= self@.take(i + 1));
            }
            i = i + 1;
        }
        let mut r = Path { components: v };
        proof {
            assert(self@.take(n as int) =~= self@);
        }
        r.push(comp);
        r
    }

    /// The number of components.
    pub fn depth(&self) -> (r: usize)
        ensures
            r == self@.len(),
    {
        self.components.len()
    }

    /// The textual form: components joined by the separator; the root path
    /// renders as the empty string.
    pub fn render(&self) -> (r: String)
        ensures
            r@ == render_comps(self@),
    {
        let mut r = String::new();
        let n = self.components.len();
        let mut i: usize = 0;
        while i < n
            invariant
                i <= n,
                n == self.components@.len(),
                r@ == render_comps(self@.take(i as int)),
            decreases n - i,
        {
            if i > 0 {
                r.append("/");
                proof {
                    reveal_strlit("/");
                    assert("/"@ =~= seq!['/']);
                }
            }
            r.append(self.components[i].as_str());
            proof {
                assert(self@.take(i + 1).drop_last() =~= self@.take(i as int));
                assert(self@.take(i + 1).last() == self@[i as int]);
                if i == 0 {
                    assert(r@ =~= render_comps(self@.take(i + 1)));
                }
            }
            i = i + 1;
        }
        proof {
            assert(self@.take(n as int) =~= self@);
        }
        r
    }
}

} // verus!
