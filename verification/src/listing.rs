use vstd::prelude::*;
use vstd::string::*;

verus! {

/// The shape of one listed entry.
pub enum KeyOrDirView {
    Key(Seq<char>),
    Dir(Seq<char>),
}

/// One entry of a directory listing: a leaf secret or a sub-directory. The
/// store marks a sub-directory by a trailing separator on the raw name; the
/// tag is derived from that mark alone, and the `Dir` name carries the mark
/// stripped.
#[derive(Debug)]
pub enum KeyOrDir {
    Key(String),
    Dir(String),
}

impl View for KeyOrDir {
    type V = KeyOrDirView;

    open spec fn view(&self) -> KeyOrDirView {
        match self {
            KeyOrDir::Key(s) => KeyOrDirView::Key(s@),
            KeyOrDir::Dir(s) => KeyOrDirView::Dir(s@),
        }
    }
}

impl DeepView for KeyOrDir {
    type V = KeyOrDirView;

    open spec fn deep_view(&self) -> KeyOrDirView {
        self.view()
    }
}

impl KeyOrDirView {
    /// The name carried by the entry, whichever tag it has.
    pub open spec fn name(self) -> Seq<char> {
        match self {
            KeyOrDirView::Key(s) => s,
            KeyOrDirView::Dir(s) => s,
        }
    }
}

/// How one raw listed name is classified: a trailing separator makes it a
/// directory (separator stripped), anything else a key (kept whole).
pub open spec fn spec_classify(raw: Seq<char>) -> KeyOrDirView {
    if raw.len() > 0 && raw.last() == '/' {
        KeyOrDirView::Dir(raw.drop_last())
    } else {
        KeyOrDirView::Key(raw)
    }
}

/// Every raw name of a listing, classified in order.
pub open spec fn spec_classify_all(names: Seq<Seq<char>>) -> Seq<KeyOrDirView> {
    Seq::new(names.len(), |i: int| spec_classify(names[i]))
}

/// Classifying loses nothing: one entry per raw name, a `Dir` exactly for a
/// trailing separator (which is stripped), a `Key` kept letter for letter.
pub proof fn lemma_listing_partition(names: Seq<Seq<char>>)
    ensures
        spec_classify_all(names).len() == names.len(),
        forall|i: int|
            0 <= i < names.len() ==> ((#[trigger] spec_classify_all(names)[i]) is Dir <==> (
            names[i].len() > 0 && names[i].last() == '/')),
        forall|i: int|
            0 <= i < names.len() && spec_classify_all(names)[i] is Dir
                ==> (#[trigger] spec_classify_all(names)[i])->Dir_0 == names[i].drop_last(),
        forall|i: int|
            0 <= i < names.len() && spec_classify_all(names)[i] is Key
                ==> (#[trigger] spec_classify_all(names)[i])->Key_0 == names[i],
{
}

/// Classify one raw listed name.
pub fn classify(raw: &str) -> (r: KeyOrDir)
    ensures
        r@ == spec_classify(raw@),
{
    let n = raw.unicode_len();
    if n > 0 && raw.get_char(n - 1) == '/' {
        let stripped = raw.substring_char(0, n - 1);
        proof {
            assert(raw@.subrange(0, n - 1) =~= raw@.drop_last());
        }
        KeyOrDir::Dir(stripped.to_owned())
    } else {
        KeyOrDir::Key(raw.to_owned())
    }
}

} // verus!
