use vstd::prelude::*;
use crate::engine::clone_bytes;
use crate::paths::{is_srt_name, spec_is_srt_name};

verus! {

/// The byte sequences a list of byte vectors spells.
pub open spec fn names_view(s: Seq<Vec<u8>>) -> Seq<Seq<u8>> {
    s.map_values(|v: Vec<u8>| v@)
}

/// The file names a batch walk takes on, out of a discovered list: exactly
/// those with the subtitle extension, in discovery order.
pub open spec fn spec_eligible(names: Seq<Seq<u8>>) -> Seq<Seq<u8>>
    decreases names.len(),
{
    if names.len() == 0 {
        Seq::empty()
    } else {
        spec_eligible(names.drop_last()) + if spec_is_srt_name(names.last()) {
            seq![names.last()]
        } else {
            Seq::empty()
        }
    }
}

/// Selects from a discovered file list the names the batch walk processes:
/// those whose extension spells `srt` in any letter case, kept in order. A
/// directory without such files yields the empty list: the walk then
/// processes nothing and reports nothing.
pub fn eligible_files(names: &Vec<Vec<u8>>) -> (r: Vec<Vec<u8>>)
    ensures
        names_view(r@) == spec_eligible(names_view(names@)),
{
    let ghost model = names_view(names@);
    let mut out: Vec<Vec<u8>> = Vec::new();
    let mut i: usize = 0;
    proof {
        assert(model.take(0int) =~= Seq::<Seq<u8>>::empty());
        assert(names_view(out@) =~= Seq::<Seq<u8>>::empty());
    }
    while i < names.len()
        invariant
            i <= names.len(),
            model == names_view(names@),
            model.len() == names@.len(),
            names_view(out@) == spec_eligible(model.take(i as int)),
        decreases names.len() - i,
    {
        let ghost pre = names_view(out@);
        proof {
            assert(model.take(i as int + 1).drop_last() =~= model.take(i as int));
            assert(model.take(i as int + 1).last() == model[i as int]);
            assert(model[i as int] == names@[i as int]@);
        }
        if is_srt_name(&names[i]) {
            out.push(clone_bytes(&names[i]));
            proof {
                assert(names_view(out@) =~= pre + seq![model[i as int]]);
            }
        } else {
            proof {
                assert(pre + Seq::<Seq<u8>>::empty() =~= pre);
            }
        }
        i += 1;
    }
    proof {
        assert(model.take(model.len() as int) =~= model);
    }
    out
}

/// The cleanup decision of the batch walk's last step: the `.OLD.` backup
/// of a file is deleted exactly when deletion was asked for and that
/// file's rewrite succeeded. A backup whose rewrite failed stays on disk
/// as recovery data.
pub fn should_delete_backup(delete: bool, succeeded: bool) -> (r: bool)
    ensures
        r == (delete && succeeded),
{
    delete && succeeded
}

} // verus!
