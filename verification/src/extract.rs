use vstd::prelude::*;
use crate::archive::{
    archive_data, archive_is_file, entry_is_file, list_entry_names, open_archive, read_entry,
    zip_entry_data, zip_entry_is_file, zip_error_text, zip_listing,
};
use crate::entries::{base_name, base_of, is_image, is_image_name};
use crate::str_views;

verus! {

// One archive is processed in one pass: the entry listing is filtered down to
// the image entries that have a basename, and each of those that is a plain
// file is read whole; the first failing lookup or read aborts the archive.

/// One extracted image: its output file name and its content.
pub struct ImageFile {
    pub name: String,
    pub data: Vec<u8>,
}

/// Why an archive could not be processed.
#[derive(Debug)]
pub enum ExtractError {
    /// The bytes do not parse as a zip archive; with the parser's message.
    InvalidArchive(String),
    /// An entry lookup or read failed; with the reader's message.
    EntryRead(String),
}

impl ExtractError {
    /// The message text the error carries.
    pub fn text(&self) -> (r: String)
        ensures
            r@ == (match self {
                ExtractError::InvalidArchive(m) => m@,
                ExtractError::EntryRead(m) => m@,
            }),
    {
        match self {
            ExtractError::InvalidArchive(m) => m.clone(),
            ExtractError::EntryRead(m) => m.clone(),
        }
    }
}

/// Whether an entry of this name is picked for extraction: an image name that
/// has a basename.
pub open spec fn is_picked(n: Seq<char>) -> bool {
    is_image_name(n) && base_of(n) is Some
}

/// The names picked for extraction, in listing order.
pub open spec fn picked(names: Seq<Seq<char>>) -> Seq<Seq<char>>
    decreases names.len(),
{
    if names.len() == 0 {
        Seq::empty()
    } else {
        picked(names.drop_last()) + (if is_picked(names.last()) {
            seq![names.last()]
        } else {
            Seq::empty()
        })
    }
}

/// The view of a run's output: each image's (file name, content), in order.
pub open spec fn files_view(v: Seq<ImageFile>) -> Seq<(Seq<char>, Seq<u8>)> {
    Seq::new(v.len(), |i: int| (v[i].name@, v[i].data@))
}

/// What walking these picked names of the archive yields: the (basename,
/// content) pair of each plain-file entry, in order, directory and link
/// entries skipped; `None` as soon as a lookup or a read fails.
pub open spec fn gather(bytes: Seq<u8>, picks: Seq<Seq<char>>) -> Option<
    Seq<(Seq<char>, Seq<u8>)>,
>
    decreases picks.len(),
{
    if picks.len() == 0 {
        Some(Seq::empty())
    } else {
        let n = picks[0];
        let rest = gather(bytes, picks.drop_first());
        match zip_entry_is_file(bytes, n) {
            None => None,
            Some(false) => rest,
            Some(true) => match zip_entry_data(bytes, n) {
                None => None,
                Some(d) => match rest {
                    None => None,
                    Some(tail) => Some(seq![(base_of(n)->0, d)] + tail),
                },
            },
        }
    }
}

proof fn lemma_gather_append(bytes: Seq<u8>, a: Seq<Seq<char>>, b: Seq<Seq<char>>)
    ensures
        (gather(bytes, a) is None ==> gather(bytes, a + b) is None),
        (gather(bytes, a) matches Some(x) ==> gather(bytes, a + b) == (match gather(bytes, b) {
            None => None::<Seq<(Seq<char>, Seq<u8>)>>,
            Some(y) => Some(x + y),
        })),
    decreases a.len(),
{
    if a.len() == 0 {
        assert(a + b =~= b);
        if gather(bytes, b) is Some {
            let y = gather(bytes, b)->0;
            assert(Seq::<(Seq<char>, Seq<u8>)>::empty() + y =~= y);
        }
    } else {
        assert((a + b).drop_first() =~= a.drop_first() + b);
        assert((a + b)[0] == a[0]);
        assert((a + b).len() > 0);
        lemma_gather_append(bytes, a.drop_first(), b);
        let n = a[0];
        if zip_entry_is_file(bytes, n) == Some(true) && zip_entry_data(bytes, n) is Some {
            let d = zip_entry_data(bytes, n)->0;
            let p = (base_of(n)->0, d);
            if gather(bytes, a.drop_first()) is Some && gather(bytes, b) is Some {
                let x1 = gather(bytes, a.drop_first())->0;
                let y = gather(bytes, b)->0;
                assert(seq![p] + (x1 + y) =~= (seq![p] + x1) + y);
            }
        }
    }
}

proof fn lemma_picked_take_step(names: Seq<Seq<char>>, k: int)
    requires
        0 <= k < names.len(),
    ensures
        picked(names.take(k + 1)) == picked(names.take(k)) + (if is_picked(names[k]) {
            seq![names[k]]
        } else {
            Seq::<Seq<char>>::empty()
        }),
{
    let t = names.take(k + 1);
    assert(t.drop_last() =~= names.take(k));
    assert(t.last() == names[k]);
}

proof fn lemma_picked_append(a: Seq<Seq<char>>, b: Seq<Seq<char>>)
    ensures
        picked(a + b) == picked(a) + picked(b),
    decreases b.len(),
{
    if b.len() == 0 {
        assert(a + b =~= a);
        assert(picked(a) + picked(b) =~= picked(a));
    } else {
        assert((a + b).drop_last() =~= a + b.drop_last());
        assert((a + b).last() == b.last());
        lemma_picked_append(a, b.drop_last());
        let tail = if is_picked(b.last()) {
            seq![b.last()]
        } else {
            Seq::<Seq<char>>::empty()
        };
        assert((picked(a) + picked(b.drop_last())) + tail =~= picked(a) + (picked(b.drop_last())
            + tail));
    }
}

/// After the prefix of length `k + 1` of the listing, gathering the whole
/// listing's picks has failed for good once the pick at `k` fails.
proof fn lemma_gather_aborts(bytes: Seq<u8>, names: Seq<Seq<char>>, k: int)
    requires
        0 <= k < names.len(),
        is_picked(names[k]),
        gather(bytes, picked(names.take(k)) + seq![names[k]]) is None,
    ensures
        gather(bytes, picked(names)) is None,
{
    lemma_picked_take_step(names, k);
    assert(names =~= names.take(k + 1) + names.skip(k + 1));
    lemma_picked_append(names.take(k + 1), names.skip(k + 1));
    lemma_gather_append(bytes, picked(names.take(k + 1)), picked(names.skip(k + 1)));
}

/// All image entries of the archive given by `bytes`, extracted: the archive
/// is opened, its listing filtered to the picked names, and each picked
/// plain-file entry read whole; entries without basenames and entries that are
/// directories or links are skipped.  The first failing lookup or read aborts
/// with the entry-read error; bytes that are no zip archive give the
/// invalid-archive error.
pub fn extract_from_bytes(bytes: Vec<u8>) -> (r: Result<Vec<ImageFile>, ExtractError>)
    ensures
        ((r matches Err(e) && e matches ExtractError::InvalidArchive(_)) <==> zip_listing(bytes@)
            is None),
        (zip_listing(bytes@) matches Some(names) ==> {
            &&& (r is Ok <==> gather(bytes@, picked(names)) is Some)
            &&& (r matches Ok(v) ==> Some(files_view(v@)) == gather(bytes@, picked(names)))
        }),
{
    let ghost bs = bytes@;
    let mut a = match open_archive(bytes) {
        Ok(a) => a,
        Err(e) => {
            let t = zip_error_text(&e);
            return Err(ExtractError::InvalidArchive(t));
        },
    };
    let names = list_entry_names(&a);
    let ghost nseq = str_views(names@);
    let n = names.len();
    let mut out: Vec<ImageFile> = Vec::new();
    proof {
        assert(nseq.take(0) =~= Seq::<Seq<char>>::empty());
        assert(files_view(out@) =~= Seq::<(Seq<char>, Seq<u8>)>::empty());
    }
    let mut k: usize = 0;
    while k < n
        invariant
            0 <= k <= n,
            n == names@.len(),
            nseq == str_views(names@),
            bs == bytes@,
            zip_listing(bs) == Some(nseq),
            forall|m: Seq<char>| #[trigger] archive_is_file(a, m) == zip_entry_is_file(bs, m),
            forall|m: Seq<char>| #[trigger] archive_data(a, m) == zip_entry_data(bs, m),
            gather(bs, picked(nseq.take(k as int))) == Some(files_view(out@)),
        decreases n - k,
    {
        let nm = &names[k];
        proof {
            assert(nseq[k as int] == names@[k as int]@);
        }
        let ghost nv = nseq[k as int];
        if is_image(nm.as_str()) {
            match base_name(nm.as_str()) {
                Some(base) => {
                    proof {
                        lemma_picked_take_step(nseq, k as int);
                        lemma_gather_append(bs, picked(nseq.take(k as int)), seq![nv]);
                        assert(seq![nv].drop_first() =~= Seq::<Seq<char>>::empty());
                        assert(gather(bs, Seq::<Seq<char>>::empty()) == Some(
                            Seq::<(Seq<char>, Seq<u8>)>::empty(),
                        ));
                    }
                    match entry_is_file(&mut a, nm) {
                        Err(e) => {
                            proof {
                                assert(gather(bs, seq![nv]) is None);
                                lemma_gather_aborts(bs, nseq, k as int);
                            }
                            let t = zip_error_text(&e);
                            return Err(ExtractError::EntryRead(t));
                        },
                        Ok(false) => {
                            proof {
                                assert(gather(bs, seq![nv]) == Some(
                                    Seq::<(Seq<char>, Seq<u8>)>::empty(),
                                ));
                                assert(files_view(out@) + Seq::<(Seq<char>, Seq<u8>)>::empty()
                                    =~= files_view(out@));
                            }
                        },
                        Ok(true) => {
                            match read_entry(&mut a, nm) {
                                Err(e) => {
                                    proof {
                                        assert(gather(bs, seq![nv]) is None);
                                        lemma_gather_aborts(bs, nseq, k as int);
                                    }
                                    let t = zip_error_text(&e);
                                    return Err(ExtractError::EntryRead(t));
                                },
                                Ok(data) => {
                                    let ghost dv = data@;
                                    let ghost before = out@;
                                    let ghost bv = base@;
                                    out.push(ImageFile { name: base, data });
                                    proof {
                                        assert(gather(bs, seq![nv]) == Some(seq![(bv, dv)]));
                                        let lhs = files_view(out@);
                                        let rhs = files_view(before) + seq![(bv, dv)];
                                        assert(lhs.len() == rhs.len());
                                        assert forall|i: int|
                                            0 <= i < lhs.len() implies lhs[i] == rhs[i] by {
                                            if i < before.len() {
                                                assert(out@[i] == before[i]);
                                            } else {
                                                assert(out@[i].name@ == bv && out@[i].data@ == dv);
                                            }
                                        }
                                        assert(lhs =~= rhs);
                                    }
                                },
                            }
                        },
                    }
                },
                None => {
                    proof {
                        lemma_picked_take_step(nseq, k as int);
                        assert(picked(nseq.take(k as int)) + Seq::<Seq<char>>::empty() =~= picked(
                            nseq.take(k as int),
                        ));
                    }
                },
            }
        } else {
            proof {
                lemma_picked_take_step(nseq, k as int);
                assert(picked(nseq.take(k as int)) + Seq::<Seq<char>>::empty() =~= picked(
                    nseq.take(k as int),
                ));
            }
        }
        k += 1;
    }
    proof {
        assert(nseq.take(n as int) =~= nseq);
    }
    Ok(out)
}

} // verus!
