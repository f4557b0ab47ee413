use vstd::prelude::*;

verus! {

/// A file that existed on disk when the document was merged: its relative
/// path, its stable numeric identity, and its content fingerprint at merge
/// time.
#[derive(Debug, Clone, PartialEq, Eq)]
pub struct ExistingFileInfo {
    pub idx: usize,
    pub path: Vec<u8>,
    pub hash: Vec<u8>,
}

/// Mathematical model of an `ExistingFileInfo`.
pub ghost struct ExRecV {
    pub idx: int,
    pub path: Seq<u8>,
    pub hash: Seq<u8>,
}

impl DeepView for ExistingFileInfo {
    type V = ExRecV;

    open spec fn deep_view(&self) -> ExRecV {
        ExRecV { idx: self.idx as int, path: self.path@, hash: self.hash@ }
    }
}

/// What the edited document now says about the file with a given identity:
/// its (possibly new) relative path, and its re-embedded content if the
/// document captured one.
#[derive(Debug, Clone, PartialEq, Eq)]
pub struct UpdatedFileInfo {
    pub idx: usize,
    pub new_path: Vec<u8>,
    pub content: Option<Vec<u8>>,
}

/// Mathematical model of an `UpdatedFileInfo`.
pub ghost struct UpdRecV {
    pub idx: int,
    pub new_path: Seq<u8>,
    pub content: Option<Seq<u8>>,
}

impl DeepView for UpdatedFileInfo {
    type V = UpdRecV;

    open spec fn deep_view(&self) -> UpdRecV {
        UpdRecV { idx: self.idx as int, new_path: self.new_path@, content: self.content.deep_view() }
    }
}

/// The structured model of an edited merch document: the base directory all
/// relative paths resolve against, the files that existed before editing,
/// and the files the edited text now describes.
#[derive(Debug, Clone, PartialEq, Eq)]
pub struct ParsedMerchDoc {
    pub base_path: Vec<u8>,
    pub existing_files: Vec<ExistingFileInfo>,
    pub updated_files: Vec<UpdatedFileInfo>,
}

/// Mathematical model of a `ParsedMerchDoc`.
pub ghost struct DocV {
    pub base_path: Seq<u8>,
    pub existing: Seq<ExRecV>,
    pub updated: Seq<UpdRecV>,
}

impl DeepView for ParsedMerchDoc {
    type V = DocV;

    open spec fn deep_view(&self) -> DocV {
        DocV {
            base_path: self.base_path@,
            existing: self.existing_files.deep_view(),
            updated: self.updated_files.deep_view(),
        }
    }
}

/// The data model's invariant on updated records: the mapping from index
/// to record has pairwise distinct keys.
pub open spec fn unique_updated_indices(s: Seq<UpdRecV>) -> bool {
    forall|i: int, j: int| 0 <= i < j < s.len() ==> (#[trigger] s[i]).idx != (#[trigger] s[j]).idx
}

/// Position of the first updated record carrying the given index, or the
/// sequence's length if there is none.
pub open spec fn upd_pos(s: Seq<UpdRecV>, idx: int) -> int
    decreases s.len(),
{
    if s.len() == 0 {
        0
    } else if s[0].idx == idx {
        0
    } else {
        1 + upd_pos(s.skip(1), idx)
    }
}

/// The first updated record carrying the given index, if any.
pub open spec fn find_updated(s: Seq<UpdRecV>, idx: int) -> Option<UpdRecV> {
    if upd_pos(s, idx) < s.len() {
        Some(s[upd_pos(s, idx)])
    } else {
        None
    }
}

/// `upd_pos` really is the position of the first record with the index.
pub proof fn lemma_upd_pos(s: Seq<UpdRecV>, idx: int)
    ensures
        0 <= upd_pos(s, idx) <= s.len(),
        upd_pos(s, idx) < s.len() ==> s[upd_pos(s, idx)].idx == idx,
        forall|j: int| 0 <= j < upd_pos(s, idx) ==> s[j].idx != idx,
    decreases s.len(),
{
    if s.len() == 0 {
    } else if s[0].idx == idx {
    } else {
        lemma_upd_pos(s.skip(1), idx);
        assert forall|j: int| 0 <= j < upd_pos(s, idx) implies s[j].idx != idx by {
            if j > 0 {
                assert(s.skip(1)[j - 1] == s[j]);
            }
        }
    }
}

/// Finds the position of the first updated record with the given index.
pub fn lookup_updated(s: &Vec<UpdatedFileInfo>, idx: usize) -> (r: Option<usize>)
    ensures
        match r {
            Some(p) => p < s@.len() && upd_pos(s.deep_view(), idx as int) == p as int,
            None => upd_pos(s.deep_view(), idx as int) == s@.len(),
        },
{
    let ghost dv = s.deep_view();
    proof {
        assert(dv.skip(0) =~= dv);
    }
    let mut i: usize = 0;
    while i < s.len()
        invariant
            i <= s@.len(),
            dv == s.deep_view(),
            dv.len() == s@.len(),
            upd_pos(dv, idx as int) == i + upd_pos(dv.skip(i as int), idx as int),
        decreases s@.len() - i,
    {
        if s[i].idx == idx {
            proof {
                assert(dv.skip(i as int)[0] == dv[i as int]);
                lemma_upd_pos(dv.skip(i as int), idx as int);
            }
            return Some(i);
        }
        proof {
            assert(dv.skip(i as int)[0] == dv[i as int]);
            assert(dv.skip(i as int).skip(1) =~= dv.skip(i as int + 1));
        }
        i = i + 1;
    }
    proof {
        assert(dv.skip(dv.len() as int) =~= Seq::<UpdRecV>::empty());
    }
    None
}

} // verus!
