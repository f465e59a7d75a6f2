use vstd::prelude::*;
use vstd::string::*;
use crate::error::Error;
use crate::json::{JsonValue, JsonView, json_view, obj_view, obj_view_index, spec_get};

verus! {

/// The pairs of the cache object. The cache file holds one JSON object;
/// anything else counts as empty, so a fresh or blank file starts a new
/// object.
pub open spec fn spec_cache_pairs(v: JsonView) -> Seq<(Seq<char>, JsonView)> {
    match v {
        JsonView::Obj(pairs) => pairs,
        _ => Seq::empty(),
    }
}

/// `pairs` with every pair named `key` taken out, order otherwise kept.
pub open spec fn spec_remove_key(pairs: Seq<(Seq<char>, JsonView)>, key: Seq<char>) -> Seq<
    (Seq<char>, JsonView),
>
    decreases pairs.len(),
{
    if pairs.len() == 0 {
        Seq::empty()
    } else {
        let rest = spec_remove_key(pairs.drop_first(), key);
        if pairs[0].0 == key {
            rest
        } else {
            seq![pairs[0]] + rest
        }
    }
}

/// What the cache object becomes: setting a value removes any old pair for
/// the key and appends the new one; setting none removes the key.
pub open spec fn spec_cache_set(v: JsonView, key: Seq<char>, value: Option<Seq<char>>) -> JsonView {
    let kept = spec_remove_key(spec_cache_pairs(v), key);
    match value {
        Some(s) => JsonView::Obj(kept.push((key, JsonView::Str(s)))),
        None => JsonView::Obj(kept),
    }
}

/// Read one cached string value. An absent key is no value, not an error; a
/// value of any other shape is a corrupt cache.
pub fn cache_get(v: &JsonValue, key: &str) -> (r: Result<Option<String>, Error>)
    ensures
        match r {
            Ok(found) => match found {
                Some(s) => spec_get(v@, key@) == Some(JsonView::Str(s@)),
                None => spec_get(v@, key@) is None,
            },
            Err(e) => e is RuntimeError && match spec_get(v@, key@) {
                Some(x) => !(x is Str),
                None => false,
            },
        },
{
    match v.get(key) {
        Some(x) => match x.as_str() {
            Some(s) => Ok(Some(s.clone())),
            None => Err(Error::RuntimeError(String::from_str("Invalid runtime info"))),
        },
        None => Ok(None),
    }
}

/// Set or remove one cached string value, keeping every other pair in order.
pub fn cache_set(v: JsonValue, key: &str, value: Option<&str>) -> (r: JsonValue)
    ensures
        r@ == spec_cache_set(v@, key@, value.deep_view()),
{
    let mut pairs: Vec<(String, JsonValue)> = match v {
        JsonValue::Obj(p) => p,
        _ => Vec::new(),
    };
    let ghost orig = pairs.deep_view();
    proof {
        obj_view_index(pairs@);
        assert(obj_view(pairs@) =~= orig);
        assert(spec_cache_pairs(v@) =~= orig);
    }
    let k = String::from_str(key);
    let mut out: Vec<(String, JsonValue)> = Vec::new();
    while pairs.len() > 0
        invariant
            k@ == key@,
            spec_remove_key(orig, key@) == out.deep_view() + spec_remove_key(
                pairs.deep_view(),
                key@,
            ),
        decreases pairs.len(),
    {
        let ghost rem = pairs.deep_view();
        let ghost outpre = out.deep_view();
        let p = pairs.remove(0);
        proof {
            assert(pairs.deep_view() =~= rem.drop_first());
            assert(p.deep_view() == rem[0]);
        }
        if p.0 == k {
            proof {
                assert(spec_remove_key(rem, key@) == spec_remove_key(rem.drop_first(), key@));
            }
        } else {
            out.push(p);
            proof {
                assert(out.deep_view() =~= outpre.push(rem[0]));
                assert(outpre + spec_remove_key(rem, key@) =~= out.deep_view() + spec_remove_key(
                    rem.drop_first(),
                    key@,
                ));
            }
        }
    }
    proof {
        assert(pairs.deep_view() =~= Seq::<(Seq<char>, JsonView)>::empty());
        assert(spec_remove_key(orig, key@) =~= out.deep_view());
    }
    match value {
        Some(s) => {
            let ghost outpre = out.deep_view();
            out.push((k, JsonValue::Str(s.to_owned())));
            let r = JsonValue::Obj(out);
            proof {
                obj_view_index(r->Obj_0@);
                assert(obj_view(r->Obj_0@) =~= outpre.push((key@, JsonView::Str(s@))));
            }
            r
        },
        None => {
            let r = JsonValue::Obj(out);
            proof {
                obj_view_index(r->Obj_0@);
                assert(obj_view(r->Obj_0@) =~= spec_remove_key(orig, key@));
            }
            r
        },
    }
}

} // verus!
