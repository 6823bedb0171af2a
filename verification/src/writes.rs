use vstd::prelude::*;
use crate::extract::{files_view, ImageFile};

verus! {

// Extracted files are written into the output directory one after the other,
// and a write creates the file of that name or overwrites it.  This module
// states what a whole run of writes leaves behind.

/// The directory contents, by file name, after the writes in `ws` have been
/// applied in order.
pub open spec fn apply_writes(
    dir: Map<Seq<char>, Seq<u8>>,
    ws: Seq<(Seq<char>, Seq<u8>)>,
) -> Map<Seq<char>, Seq<u8>>
    decreases ws.len(),
{
    if ws.len() == 0 {
        dir
    } else {
        apply_writes(dir, ws.drop_last()).insert(ws.last().0, ws.last().1)
    }
}

/// Law: when several writes share one name, the directory afterwards holds,
/// under that name, exactly the data of the last such write — a later entry
/// overwrites an earlier one of the same name, and only one file of the name
/// remains.
pub proof fn lemma_last_write_wins(
    dir: Map<Seq<char>, Seq<u8>>,
    ws: Seq<(Seq<char>, Seq<u8>)>,
    j: int,
)
    requires
        0 <= j < ws.len(),
        forall|k: int| j < k < ws.len() ==> (#[trigger] ws[k]).0 != ws[j].0,
    ensures
        apply_writes(dir, ws).contains_key(ws[j].0),
        apply_writes(dir, ws)[ws[j].0] == ws[j].1,
    decreases ws.len(),
{
    if j < ws.len() - 1 {
        let prev = ws.drop_last();
        assert(prev[j] == ws[j]);
        lemma_last_write_wins(dir, prev, j);
    }
}

/// Law: when extracted images are written in order, every output name that
/// occurs holds, afterwards, the content of the last image of that name —
/// entries whose basenames collide leave one file, the later entry's.
pub proof fn lemma_images_last_write_wins(
    dir: Map<Seq<char>, Seq<u8>>,
    v: Seq<ImageFile>,
    j: int,
)
    requires
        0 <= j < v.len(),
        forall|k: int| j < k < v.len() ==> (#[trigger] v[k]).name@ != v[j].name@,
    ensures
        apply_writes(dir, files_view(v)).contains_key(v[j].name@),
        apply_writes(dir, files_view(v))[v[j].name@] == v[j].data@,
{
    assert(forall|k: int|
        j < k < files_view(v).len() ==> (#[trigger] files_view(v)[k]).0 != files_view(v)[j].0);
    lemma_last_write_wins(dir, files_view(v), j);
}

/// Law: a name that no write carries is untouched by the whole run.
pub proof fn lemma_unwritten_name_kept(
    dir: Map<Seq<char>, Seq<u8>>,
    ws: Seq<(Seq<char>, Seq<u8>)>,
    name: Seq<char>,
)
    requires
        forall|k: int| 0 <= k < ws.len() ==> (#[trigger] ws[k]).0 != name,
    ensures
        apply_writes(dir, ws).contains_key(name) == dir.contains_key(name),
        dir.contains_key(name) ==> apply_writes(dir, ws)[name] == dir[name],
    decreases ws.len(),
{
    if ws.len() > 0 {
        let prev = ws.drop_last();
        lemma_unwritten_name_kept(dir, prev, name);
    }
}

} // verus!
