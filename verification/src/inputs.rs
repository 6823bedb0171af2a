use vstd::prelude::*;
use crate::str_views;

verus! {

// Each command-line path is looked up once: a plain file stands for itself, a
// directory for its immediate entries (never the entries of nested
// directories), and an unreadable path for nothing.  The run refuses to start
// when no file at all comes out of this.

/// One command-line path, as the filesystem answered for it.
pub enum InputItem {
    /// A path whose metadata could not be read; it is dropped without an error.
    Unreadable,
    /// A path that names a plain file.
    File(String),
    /// A path that names a directory, with the paths of its immediate entries.
    Dir(Vec<String>),
}

/// The error of a run that was given nothing to work on.
#[derive(Debug)]
pub enum ConfigError {
    NoInputFiles,
}

/// The files one input item contributes.
pub open spec fn item_paths(it: InputItem) -> Seq<Seq<char>> {
    match it {
        InputItem::Unreadable => Seq::empty(),
        InputItem::File(p) => seq![p@],
        InputItem::Dir(ps) => str_views(ps@),
    }
}

/// All files the input items contribute, in order.
pub open spec fn resolved_paths(items: Seq<InputItem>) -> Seq<Seq<char>>
    decreases items.len(),
{
    if items.len() == 0 {
        Seq::empty()
    } else {
        resolved_paths(items.drop_last()) + item_paths(items.last())
    }
}

proof fn lemma_resolved_take_step(items: Seq<InputItem>, k: int)
    requires
        0 <= k < items.len(),
    ensures
        resolved_paths(items.take(k + 1)) == resolved_paths(items.take(k)) + item_paths(items[k]),
{
    let t = items.take(k + 1);
    assert(t.drop_last() =~= items.take(k));
    assert(t.last() == items[k]);
}

/// The file list of a run: every input item's contribution, in input order; a
/// directory item contributes exactly its immediate entries.  When nothing
/// remains, the run is refused with a configuration error instead.
pub fn resolve_inputs(items: Vec<InputItem>) -> (r: Result<Vec<String>, ConfigError>)
    ensures
        (r matches Ok(v) ==> str_views(v@) == resolved_paths(items@) && v@.len() > 0),
        (r is Err <==> resolved_paths(items@).len() == 0),
        (r is Err ==> r == Err::<Vec<String>, ConfigError>(ConfigError::NoInputFiles)),
{
    let n = items.len();
    let mut out: Vec<String> = Vec::new();
    proof {
        assert(items@.take(0) =~= Seq::<InputItem>::empty());
        assert(str_views(out@) =~= resolved_paths(items@.take(0)));
    }
    let mut k: usize = 0;
    while k < n
        invariant
            0 <= k <= n,
            n == items@.len(),
            str_views(out@) == resolved_paths(items@.take(k as int)),
        decreases n - k,
    {
        match &items[k] {
            InputItem::Unreadable => {
                proof {
                    lemma_resolved_take_step(items@, k as int);
                    assert(str_views(out@) =~= resolved_paths(items@.take(k + 1)));
                }
            },
            InputItem::File(p) => {
                out.push(p.clone());
                proof {
                    lemma_resolved_take_step(items@, k as int);
                    assert(str_views(out@) =~= resolved_paths(items@.take(k + 1)));
                }
            },
            InputItem::Dir(ps) => {
                let m = ps.len();
                let ghost out0 = out@;
                let mut j: usize = 0;
                proof {
                    assert(str_views(out@) =~= str_views(out0) + str_views(ps@).take(0));
                }
                while j < m
                    invariant
                        0 <= j <= m,
                        m == ps@.len(),
                        str_views(out@) == str_views(out0) + str_views(ps@).take(j as int),
                    decreases m - j,
                {
                    let ghost before = out@;
                    out.push(ps[j].clone());
                    proof {
                        let lhs = str_views(out@);
                        let rhs = str_views(out0) + str_views(ps@).take(j + 1);
                        assert(out@ == before.push(ps@[j as int]));
                        assert(str_views(before).len() == before.len());
                        assert(str_views(before).len() == str_views(out0).len() + j);
                        assert(lhs.len() == before.len() + 1);
                        assert(str_views(ps@).take(j + 1).len() == j + 1);
                        assert(rhs.len() == lhs.len());
                        assert forall|i: int| 0 <= i < lhs.len() implies lhs[i] == rhs[i] by {
                            if i < before.len() {
                                assert(out@[i] == before[i]);
                                assert(str_views(before)[i] == (str_views(out0) + str_views(
                                    ps@,
                                ).take(j as int))[i]);
                            } else {
                                assert(out@[i] == ps@[j as int]);
                            }
                        }
                        assert(lhs =~= rhs);
                    }
                    j += 1;
                }
                proof {
                    lemma_resolved_take_step(items@, k as int);
                    assert(str_views(ps@).take(m as int) =~= str_views(ps@));
                    assert(str_views(out@) =~= resolved_paths(items@.take(k + 1)));
                }
            },
        }
        k += 1;
    }
    proof {
        assert(items@.take(n as int) =~= items@);
    }
    if out.len() == 0 {
        Err(ConfigError::NoInputFiles)
    } else {
        Ok(out)
    }
}

} // verus!
