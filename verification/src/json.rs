use vstd::prelude::*;
use vstd::string::*;

verus! {

/// The mathematical shape of a JSON value as this client reads it.
pub enum JsonView {
    Null,
    Str(Seq<char>),
    Arr(Seq<JsonView>),
    Obj(Seq<(Seq<char>, JsonView)>),
}

/// A JSON value as this client reads it. The store's responses and the token
/// cache file are handed to the library in this form; JSON leaves the client
/// never reads (numbers, booleans) arrive as `Null` and so count as
/// non-strings wherever a string is looked for.
pub enum JsonValue {
    Null,
    Str(String),
    Arr(Vec<JsonValue>),
    Obj(Vec<(String, JsonValue)>),
}

/// The shape of one value.
pub open spec fn json_view(v: JsonValue) -> JsonView
    decreases v,
{
    if v is Arr {
        JsonView::Arr(arr_view(v->Arr_0@))
    } else if v is Obj {
        JsonView::Obj(obj_view(v->Obj_0@))
    } else if v is Str {
        JsonView::Str(v->Str_0@)
    } else {
        JsonView::Null
    }
}

/// The shapes of an array's elements.
pub open spec fn arr_view(items: Seq<JsonValue>) -> Seq<JsonView>
    decreases items,
{
    if items.len() == 0 {
        Seq::empty()
    } else {
        arr_view(items.subrange(0, items.len() - 1)).push(json_view(items[items.len() - 1]))
    }
}

/// The shapes of an object's pairs.
pub open spec fn obj_view(pairs: Seq<(String, JsonValue)>) -> Seq<(Seq<char>, JsonView)>
    decreases pairs,
{
    if pairs.len() == 0 {
        Seq::empty()
    } else {
        obj_view(pairs.subrange(0, pairs.len() - 1)).push(
            (pairs[pairs.len() - 1].0@, json_view(pairs[pairs.len() - 1].1)),
        )
    }
}

/// `arr_view` element by element.
pub proof fn arr_view_index(items: Seq<JsonValue>)
    ensures
        arr_view(items).len() == items.len(),
        forall|i: int|
            0 <= i < items.len() ==> #[trigger] arr_view(items)[i] == json_view(items[i]),
    decreases items.len(),
{
    if items.len() > 0 {
        arr_view_index(items.subrange(0, items.len() - 1));
        assert forall|i: int|
            0 <= i < items.len() implies #[trigger] arr_view(items)[i] == json_view(
            items[i],
        ) by {
            if i < items.len() - 1 {
                assert(items.subrange(0, items.len() - 1)[i] == items[i]);
            }
        }
    }
}

/// `obj_view` pair by pair.
pub proof fn obj_view_index(pairs: Seq<(String, JsonValue)>)
    ensures
        obj_view(pairs).len() == pairs.len(),
        forall|i: int|
            0 <= i < pairs.len() ==> #[trigger] obj_view(pairs)[i] == (
                pairs[i].0@,
                json_view(pairs[i].1),
            ),
    decreases pairs.len(),
{
    if pairs.len() > 0 {
        obj_view_index(pairs.subrange(0, pairs.len() - 1));
        assert forall|i: int|
            0 <= i < pairs.len() implies #[trigger] obj_view(pairs)[i] == (
            pairs[i].0@,
            json_view(pairs[i].1),
        ) by {
            if i < pairs.len() - 1 {
                assert(pairs.subrange(0, pairs.len() - 1)[i] == pairs[i]);
            }
        }
    }
}

impl View for JsonValue {
    type V = JsonView;

    open spec fn view(&self) -> JsonView {
        json_view(*self)
    }
}

impl DeepView for JsonValue {
    type V = JsonView;

    open spec fn deep_view(&self) -> JsonView {
        self.view()
    }
}

/// Look a key up among an object's pairs: the first pair with that key wins.
pub open spec fn spec_obj_get(pairs: Seq<(Seq<char>, JsonView)>, key: Seq<char>) -> Option<
    JsonView,
>
    decreases pairs.len(),
{
    if pairs.len() == 0 {
        None
    } else if pairs[0].0 == key {
        Some(pairs[0].1)
    } else {
        spec_obj_get(pairs.drop_first(), key)
    }
}

/// Look `key` up in `v`: `None` unless `v` is an object holding the key.
pub open spec fn spec_get(v: JsonView, key: Seq<char>) -> Option<JsonView> {
    match v {
        JsonView::Obj(pairs) => spec_obj_get(pairs, key),
        _ => None,
    }
}

impl JsonValue {
    /// The member named `key`, if this value is an object that has one.
    pub fn get<'a>(&'a self, key: &str) -> (r: Option<&'a JsonValue>)
        ensures
            match r {
                Some(x) => spec_get(self@, key@) == Some(x@),
                None => spec_get(self@, key@) is None,
            },
    {
        match self {
            JsonValue::Obj(pairs) => {
                let ghost vp = obj_view(pairs@);
                proof {
                    obj_view_index(pairs@);
                    assert(vp.skip(0) =~= vp);
                }
                let k = String::from_str(key);
                let n = pairs.len();
                let mut i: usize = 0;
                while i < n
                    invariant
                        i <= n,
                        n == pairs@.len(),
                        k@ == key@,
                        self@ == JsonView::Obj(vp),
                        vp == obj_view(pairs@),
                        vp.len() == n,
                        forall|j: int|
                            0 <= j < n ==> #[trigger] vp[j] == (pairs@[j].0@, json_view(pairs@[j].1)),
                        spec_obj_get(vp, key@) == spec_obj_get(vp.skip(i as int), key@),
                    decreases n - i,
                {
                    if pairs[i].0 == k {
                        proof {
                            assert(self@ == JsonView::Obj(vp));
                            assert(vp.skip(i as int)[0] == vp[i as int]);
                            assert(vp[i as int].0 == key@);
                            assert(spec_obj_get(vp.skip(i as int), key@) == Some(
                                vp[i as int].1,
                            ));
                        }
                        return Some(&pairs[i].1);
                    }
                    proof {
                        assert(vp.skip(i as int)[0] == vp[i as int]);
                        assert(vp.skip(i as int).drop_first() =~= vp.skip(i + 1));
                    }
                    i = i + 1;
                }
                proof {
                    assert(vp.skip(n as int) =~= Seq::<(Seq<char>, JsonView)>::empty());
                }
                None
            },
            _ => None,
        }
    }

    /// The carried string, if this value is a string.
    pub fn as_str(&self) -> (r: Option<&String>)
        ensures
            match r {
                Some(s) => self@ == JsonView::Str(s@),
                None => !(self@ is Str),
            },
    {
        match self {
            JsonValue::Str(s) => Some(s),
            _ => None,
        }
    }

    /// The element at `i`, if this value is an array long enough.
    pub fn index(&self, i: usize) -> (r: Option<&JsonValue>)
        ensures
            match r {
                Some(x) => {
                    &&& self@ is Arr
                    &&& i < self@->Arr_0.len()
                    &&& x@ == self@->Arr_0[i as int]
                },
                None => !(self@ is Arr) || self@->Arr_0.len() <= i,
            },
    {
        match self {
            JsonValue::Arr(items) => {
                proof {
                    arr_view_index(items@);
                }
                if i < items.len() {
                    Some(&items[i])
                } else {
                    None
                }
            },
            _ => None,
        }
    }
}

} // verus!
