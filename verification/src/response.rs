use vstd::prelude::*;
use vstd::string::*;
use crate::error::Error;
use crate::json::{JsonValue, JsonView, spec_get, json_view, arr_view, arr_view_index, obj_view,
    obj_view_index};
use crate::listing::{KeyOrDir, spec_classify, spec_classify_all, classify};

verus! {

/// The key-value payload stored at one leaf path. The mapping is unordered;
/// the pairs stand in the order the store sent them.
pub struct SecretRecord {
    pub fields: Vec<(String, String)>,
}

impl View for SecretRecord {
    type V = Seq<(Seq<char>, Seq<char>)>;

    open spec fn view(&self) -> Seq<(Seq<char>, Seq<char>)> {
        self.fields.deep_view()
    }
}

/// Look a field up by name: the first pair with that name wins.
pub open spec fn spec_field(fields: Seq<(Seq<char>, Seq<char>)>, name: Seq<char>) -> Option<
    Seq<char>,
>
    decreases fields.len(),
{
    if fields.len() == 0 {
        None
    } else if fields[0].0 == name {
        Some(fields[0].1)
    } else {
        spec_field(fields.drop_first(), name)
    }
}

impl SecretRecord {
    /// The value of the field called `name`, if the record has one.
    pub fn field<'a>(&'a self, name: &str) -> (r: Option<&'a String>)
        ensures
            match r {
                Some(x) => spec_field(self@, name@) == Some(x@),
                None => spec_field(self@, name@) is None,
            },
    {
        let k = String::from_str(name);
        let n = self.fields.len();
        proof {
            assert(self@.skip(0) =~= self@);
        }
        let mut i: usize = 0;
        while i < n
            invariant
                i <= n,
                n == self.fields@.len(),
                k@ == name@,
                spec_field(self@, name@) == spec_field(self@.skip(i as int), name@),
            decreases n - i,
        {
            if self.fields[i].0 == k {
                proof {
                    assert(self@.skip(i as int)[0] == self@[i as int]);
                }
                return Some(&self.fields[i].1);
            }
            proof {
                assert(self@.skip(i as int)[0] == self@[i as int]);
                assert(self@.skip(i as int).drop_first() =~= self@.skip(i + 1));
            }
            i = i + 1;
        }
        proof {
            assert(self@.skip(n as int) =~= Seq::<(Seq<char>, Seq<char>)>::empty());
        }
        None
    }
}

/// The first message of an `errors` array, when the body carries one whose
/// first element is a string. Its presence marks a store-level failure even
/// though the HTTP exchange itself succeeded.
pub open spec fn spec_first_error(v: JsonView) -> Option<Seq<char>> {
    match spec_get(v, "errors"@) {
        Some(JsonView::Arr(items)) => if items.len() > 0 {
            match items[0] {
                JsonView::Str(s) => Some(s),
                _ => None,
            }
        } else {
            None
        },
        _ => None,
    }
}

/// The first error message embedded in a response body, if any.
pub fn first_error<'a>(v: &'a JsonValue) -> (r: Option<&'a String>)
    ensures
        match r {
            Some(m) => spec_first_error(v@) == Some(m@),
            None => spec_first_error(v@) is None,
        },
{
    match v.get("errors") {
        Some(e) => match e.index(0) {
            Some(item) => item.as_str(),
            None => None,
        },
        None => None,
    }
}

/// The token issued by a login response: the `client_token` string inside
/// the `auth` member.
pub open spec fn spec_login_token(v: JsonView) -> Option<Seq<char>> {
    match spec_get(v, "auth"@) {
        Some(a) => match spec_get(a, "client_token"@) {
            Some(JsonView::Str(s)) => Some(s),
            _ => None,
        },
        None => None,
    }
}

/// Read a login response: an error payload is a store-level rejection; a
/// missing or non-string token in an otherwise clean body is malformed.
pub fn parse_login_response(v: &JsonValue) -> (r: Result<String, Error>)
    ensures
        match r {
            Ok(t) => spec_first_error(v@) is None && spec_login_token(v@) == Some(t@),
            Err(e) => match e {
                Error::VaultError(m) => spec_first_error(v@) == Some(m@),
                Error::RuntimeError(m) => spec_first_error(v@) is None && spec_login_token(v@)
                    is None && m@ == "Login response carries no token"@,
                _ => false,
            },
        },
{
    if let Some(m) = first_error(v) {
        return Err(Error::VaultError(m.clone()));
    }
    match v.get("auth") {
        Some(a) => match a.get("client_token") {
            Some(t) => match t.as_str() {
                Some(s) => Ok(s.clone()),
                None => Err(
                    Error::RuntimeError(String::from_str("Login response carries no token")),
                ),
            },
            None => Err(Error::RuntimeError(String::from_str("Login response carries no token"))),
        },
        None => Err(Error::RuntimeError(String::from_str("Login response carries no token"))),
    }
}

/// Read a token self-lookup response: any body without an error payload
/// proves the token valid, whatever else it holds or lacks.
pub fn parse_lookup_response(v: &JsonValue) -> (r: Result<(), Error>)
    ensures
        match r {
            Ok(_) => spec_first_error(v@) is None,
            Err(e) => e matches Error::VaultError(m) && spec_first_error(v@) == Some(m@),
        },
{
    match first_error(v) {
        Some(m) => Err(Error::VaultError(m.clone())),
        None => Ok(()),
    }
}

/// The raw listed names of a listing response: the `keys` array inside the
/// `data` member.
pub open spec fn spec_list_keys(v: JsonView) -> Option<Seq<JsonView>> {
    match spec_get(v, "data"@) {
        Some(d) => match spec_get(d, "keys"@) {
            Some(JsonView::Arr(items)) => Some(items),
            _ => None,
        },
        None => None,
    }
}

/// Every element is a string.
pub open spec fn all_strings(items: Seq<JsonView>) -> bool {
    forall|i: int| 0 <= i < items.len() ==> items[i] is Str
}

/// The carried strings of a sequence of string shapes.
pub open spec fn string_views(items: Seq<JsonView>) -> Seq<Seq<char>> {
    Seq::new(items.len(), |i: int| items[i]->Str_0)
}

/// Read a listing response: an error payload is a store-level failure; a
/// clean body must hold `data.keys` as an array of strings, each of which is
/// classified by its trailing separator, in order and with no loss.
pub fn parse_list_response(v: &JsonValue) -> (r: Result<Vec<KeyOrDir>, Error>)
    ensures
        match r {
            Ok(entries) => {
                &&& spec_first_error(v@) is None
                &&& spec_list_keys(v@) matches Some(items) && all_strings(items)
                    && entries.deep_view() == spec_classify_all(string_views(items))
            },
            Err(e) => match e {
                Error::VaultError(m) => spec_first_error(v@) == Some(m@),
                Error::RuntimeError(_) => spec_first_error(v@) is None && !(spec_list_keys(v@)
                    matches Some(items) && all_strings(items)),
                _ => false,
            },
        },
{
    if let Some(m) = first_error(v) {
        return Err(Error::VaultError(m.clone()));
    }
    let data = match v.get("data") {
        Some(d) => d,
        None => {
            return Err(Error::RuntimeError(String::from_str("List result is not a list")));
        },
    };
    let keys = match data.get("keys") {
        Some(k) => k,
        None => {
            return Err(Error::RuntimeError(String::from_str("List result is not a list")));
        },
    };
    match keys {
        JsonValue::Arr(items) => {
            let ghost iv = arr_view(items@);
            proof {
                arr_view_index(items@);
                assert(spec_list_keys(v@) == Some(iv));
            }
            let mut out: Vec<KeyOrDir> = Vec::new();
            let n = items.len();
            let mut i: usize = 0;
            while i < n
                invariant
                    i <= n,
                    n == items@.len(),
                    iv == arr_view(items@),
                    iv.len() == n,
                    forall|j: int| 0 <= j < n ==> #[trigger] iv[j] == json_view(items@[j]),
                    spec_first_error(v@) is None,
                    spec_list_keys(v@) == Some(iv),
                    forall|j: int| 0 <= j < i ==> #[trigger] iv[j] is Str,
                    out.deep_view().len() == i,
                    forall|j: int|
                        0 <= j < i ==> #[trigger] out.deep_view()[j] == spec_classify(
                            iv[j]->Str_0,
                        ),
                decreases n - i,
            {
                let ghost pre = out.deep_view();
                match items[i].as_str() {
                    Some(s) => {
                        let e = classify(s.as_str());
                        out.push(e);
                        proof {
                            assert forall|j: int| 0 <= j < i + 1 implies #[trigger] out.deep_view()[j]
                                == spec_classify(iv[j]->Str_0) by {
                                if j < i {
                                    assert(out.deep_view()[j] == pre[j]);
                                } else {
                                    assert(out@[j] == out@.last());
                                }
                            }
                        }
                    },
                    None => {
                        proof {
                            assert(!all_strings(iv)) by {
                                assert(iv[i as int] == json_view(items@[i as int]));
                                assert(!(iv[i as int] is Str));
                            }
                        }
                        return Err(
                            Error::RuntimeError(String::from_str("List item is not a string")),
                        );
                    },
                }
                i = i + 1;
            }
            proof {
                assert(out.deep_view() =~= spec_classify_all(string_views(iv)));
            }
            Ok(out)
        },
        _ => Err(Error::RuntimeError(String::from_str("List result is not a list"))),
    }
}

/// The payload of a fetch response: the inner `data` member of the outer
/// `data` member. The double envelope is a fixed contract of the store's
/// API version: exactly two levels are peeled, never more or fewer.
pub open spec fn spec_secret_body(v: JsonView) -> Option<JsonView> {
    match spec_get(v, "data"@) {
        Some(d) => spec_get(d, "data"@),
        None => None,
    }
}

/// Every pair's value is a string.
pub open spec fn all_string_values(pairs: Seq<(Seq<char>, JsonView)>) -> bool {
    forall|i: int| 0 <= i < pairs.len() ==> pairs[i].1 is Str
}

/// The carried pairs of an object whose values are all strings.
pub open spec fn string_pairs(pairs: Seq<(Seq<char>, JsonView)>) -> Seq<(Seq<char>, Seq<char>)> {
    Seq::new(pairs.len(), |i: int| (pairs[i].0, pairs[i].1->Str_0))
}

/// Read a fetch response: peel the double envelope and keep the field map,
/// which must be an object of strings.
pub fn parse_get_response(v: &JsonValue) -> (r: Result<SecretRecord, Error>)
    ensures
        match r {
            Ok(rec) => spec_secret_body(v@) matches Some(JsonView::Obj(pairs))
                && all_string_values(pairs) && rec@ == string_pairs(pairs),
            Err(e) => e is RuntimeError && !(spec_secret_body(v@) matches Some(JsonView::Obj(pairs))
                && all_string_values(pairs)),
        },
{
    let outer = match v.get("data") {
        Some(d) => d,
        None => {
            return Err(Error::RuntimeError(String::from_str("Get result is not a dict")));
        },
    };
    let body = match outer.get("data") {
        Some(d) => d,
        None => {
            return Err(Error::RuntimeError(String::from_str("Get result is not a dict")));
        },
    };
    match body {
        JsonValue::Obj(pairs) => {
            let ghost pv = obj_view(pairs@);
            proof {
                obj_view_index(pairs@);
                assert(spec_secret_body(v@) == Some(JsonView::Obj(pv)));
            }
            let mut out: Vec<(String, String)> = Vec::new();
            let n = pairs.len();
            let mut i: usize = 0;
            while i < n
                invariant
                    i <= n,
                    n == pairs@.len(),
                    pv == obj_view(pairs@),
                    pv.len() == n,
                    forall|j: int|
                        0 <= j < n ==> #[trigger] pv[j] == (pairs@[j].0@, json_view(pairs@[j].1)),
                    spec_secret_body(v@) == Some(JsonView::Obj(pv)),
                    forall|j: int| 0 <= j < i ==> #[trigger] pv[j].1 is Str,
                    out.deep_view().len() == i,
                    forall|j: int|
                        0 <= j < i ==> #[trigger] out.deep_view()[j] == (pv[j].0, pv[j].1->Str_0),
                decreases n - i,
            {
                let ghost pre = out.deep_view();
                match pairs[i].1.as_str() {
                    Some(s) => {
                        let name = pairs[i].0.clone();
                        let value = s.clone();
                        out.push((name, value));
                        proof {
                            assert forall|j: int| 0 <= j < i + 1 implies #[trigger] out.deep_view()[j]
                                == (pv[j].0, pv[j].1->Str_0) by {
                                if j < i {
                                    assert(out.deep_view()[j] == pre[j]);
                                } else {
                                    assert(out@[j] == out@.last());
                                }
                            }
                        }
                    },
                    None => {
                        proof {
                            assert(!all_string_values(pv)) by {
                                assert(pv[i as int] == (pairs@[i as int].0@, json_view(
                                    pairs@[i as int].1,
                                )));
                                assert(!(pv[i as int].1 is Str));
                            }
                        }
                        return Err(
                            Error::RuntimeError(String::from_str("Get result is not a dict")),
                        );
                    },
                }
                i = i + 1;
            }
            let rec = SecretRecord { fields: out };
            proof {
                assert(rec@ =~= string_pairs(pv));
            }
            Ok(rec)
        },
        _ => Err(Error::RuntimeError(String::from_str("Get result is not a dict"))),
    }
}

} // verus!
