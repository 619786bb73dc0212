use vstd::prelude::*;

verus! {

/// The position of the last `.` in a file name, if any.
pub open spec fn spec_last_dot(name: Seq<u8>) -> Option<int>
    decreases name.len(),
{
    if name.len() == 0 {
        None
    } else if name.last() == 46 {
        Some(name.len() - 1)
    } else {
        spec_last_dot(name.drop_last())
    }
}

/// An upper-case ASCII letter folded to lower case; any other byte kept.
pub open spec fn lower_byte(b: u8) -> u8 {
    if 65 <= b && b <= 90 {
        (b + 32) as u8
    } else {
        b
    }
}

pub open spec fn lower_seq(s: Seq<u8>) -> Seq<u8> {
    s.map_values(|b: u8| lower_byte(b))
}

/// A file name the batch walk takes on: one with an extension — a last `.`
/// past the first byte — that spells the subtitle extension `srt` in any
/// letter case.
pub open spec fn spec_is_srt_name(name: Seq<u8>) -> bool {
    match spec_last_dot(name) {
        None => false,
        Some(d) => d > 0 && lower_seq(name.skip(d + 1)) == seq![115u8, 114u8, 116u8],
    }
}

/// The name with `tag` in place of its last `.`: how the output and the
/// backup names are derived from an input name.
pub open spec fn spec_insert_tag(name: Seq<u8>, tag: Seq<u8>) -> Seq<u8> {
    let d = spec_last_dot(name)->Some_0;
    name.take(d) + tag + name.skip(d + 1)
}

/// The marker `.EDITED.` that names a single-file run's default output.
pub open spec fn edited_tag() -> Seq<u8> {
    seq![46u8, 69u8, 68u8, 73u8, 84u8, 69u8, 68u8, 46u8]
}

/// The marker `.OLD.` that names a batch run's backup files.
pub open spec fn backup_tag() -> Seq<u8> {
    seq![46u8, 79u8, 76u8, 68u8, 46u8]
}

/// The position of the last `.`, if any.
pub fn last_dot(name: &Vec<u8>) -> (r: Option<usize>)
    ensures
        match spec_last_dot(name@) {
            Some(d) => r matches Some(i) && i == d && 0 <= d < name@.len(),
            None => r is None,
        },
{
    let mut i: usize = name.len();
    proof {
        assert(name@.take(i as int) =~= name@);
    }
    while i > 0
        invariant
            i <= name@.len(),
            spec_last_dot(name@) == spec_last_dot(name@.take(i as int)),
        decreases i,
    {
        if name[i - 1] == 46 {
            proof {
                assert(name@.take(i as int).last() == name@[i as int - 1]);
            }
            return Some(i - 1);
        }
        proof {
            assert(name@.take(i as int).last() == name@[i as int - 1]);
            assert(name@.take(i as int).drop_last() =~= name@.take(i as int - 1));
        }
        i -= 1;
    }
    proof {
        assert(name@.take(0int) =~= Seq::<u8>::empty());
    }
    None
}

/// Builds the name with `tag` in place of its last `.`.
fn insert_tag(name: &Vec<u8>, tag: &Vec<u8>) -> (r: Vec<u8>)
    requires
        spec_last_dot(name@) is Some,
    ensures
        r@ == spec_insert_tag(name@, tag@),
{
    let n = name.len();
    let d = last_dot(name).unwrap();
    let mut out: Vec<u8> = Vec::new();
    let mut i: usize = 0;
    proof {
        assert(out@ =~= name@.take(0int));
    }
    while i < d
        invariant
            i <= d,
            d < name@.len(),
            out@ == name@.take(i as int),
        decreases d - i,
    {
        out.push(name[i]);
        proof {
            assert(out@ =~= name@.take(i as int + 1));
        }
        i += 1;
    }
    let mut j: usize = 0;
    proof {
        assert(out@ + tag@.take(0int) =~= out@);
    }
    while j < tag.len()
        invariant
            j <= tag@.len(),
            d < name@.len(),
            out@ == name@.take(d as int) + tag@.take(j as int),
        decreases tag.len() - j,
    {
        out.push(tag[j]);
        proof {
            assert(name@.take(d as int) + tag@.take(j as int) + seq![tag@[j as int]] =~= name@.take(
                d as int,
            ) + tag@.take(j as int + 1));
        }
        j += 1;
    }
    proof {
        assert(tag@.take(tag@.len() as int) =~= tag@);
    }
    let mut k: usize = d + 1;
    proof {
        assert(name@.subrange(d as int + 1, d as int + 1) =~= Seq::<u8>::empty());
        assert(out@ =~= name@.take(d as int) + tag@ + name@.subrange(d as int + 1, d as int + 1));
    }
    while k < n
        invariant
            n == name@.len(),
            d + 1 <= k <= name@.len(),
            out@ == name@.take(d as int) + tag@ + name@.subrange(d as int + 1, k as int),
        decreases n - k,
    {
        out.push(name[k]);
        proof {
            assert(name@.take(d as int) + tag@ + name@.subrange(d as int + 1, k as int) + seq![
                name@[k as int],
            ] =~= name@.take(d as int) + tag@ + name@.subrange(d as int + 1, k as int + 1));
        }
        k += 1;
    }
    proof {
        assert(name@.subrange(d as int + 1, name@.len() as int) =~= name@.skip(d as int + 1));
    }
    out
}

/// The default output name of a single-file run: the marker `.EDITED.` in
/// place of the name's last `.`, so `movie.srt` becomes `movie.EDITED.srt`.
/// The name must have an extension.
pub fn edited_name(name: &Vec<u8>) -> (r: Vec<u8>)
    requires
        spec_last_dot(name@) is Some,
    ensures
        r@ == spec_insert_tag(name@, edited_tag()),
{
    let mut tag: Vec<u8> = Vec::new();
    tag.push(46);
    tag.push(69);
    tag.push(68);
    tag.push(73);
    tag.push(84);
    tag.push(69);
    tag.push(68);
    tag.push(46);
    proof {
        assert(tag@ =~= edited_tag());
    }
    insert_tag(name, &tag)
}

/// The backup name of a batch run: the marker `.OLD.` in place of the
/// name's last `.`, so `movie.srt` becomes `movie.OLD.srt`. The name must
/// have an extension.
pub fn backup_name(name: &Vec<u8>) -> (r: Vec<u8>)
    requires
        spec_last_dot(name@) is Some,
    ensures
        r@ == spec_insert_tag(name@, backup_tag()),
{
    let mut tag: Vec<u8> = Vec::new();
    tag.push(46);
    tag.push(79);
    tag.push(76);
    tag.push(68);
    tag.push(46);
    proof {
        assert(tag@ =~= backup_tag());
    }
    insert_tag(name, &tag)
}

/// Whether a file name carries the subtitle extension, compared without
/// regard to ASCII letter case.
pub fn is_srt_name(name: &Vec<u8>) -> (r: bool)
    ensures
        r == spec_is_srt_name(name@),
{
    let d = match last_dot(name) {
        None => {
            return false;
        },
        Some(d) => d,
    };
    if d == 0 {
        return false;
    }
    let ghost ext = name@.skip(d as int + 1);
    proof {
        assert(lower_seq(ext).len() == ext.len());
    }
    if name.len() - d - 1 != 3 {
        return false;
    }
    let b0 = name[d + 1];
    let b1 = name[d + 2];
    let b2 = name[d + 3];
    let l0 = if 65 <= b0 && b0 <= 90 {
        b0 + 32
    } else {
        b0
    };
    let l1 = if 65 <= b1 && b1 <= 90 {
        b1 + 32
    } else {
        b1
    };
    let l2 = if 65 <= b2 && b2 <= 90 {
        b2 + 32
    } else {
        b2
    };
    let ok = l0 == 115 && l1 == 114 && l2 == 116;
    proof {
        assert(ext[0] == name@[d + 1] && ext[1] == name@[d + 2] && ext[2] == name@[d + 3]);
        assert(lower_seq(ext)[0] == lower_byte(ext[0]));
        assert(lower_seq(ext)[1] == lower_byte(ext[1]));
        assert(lower_seq(ext)[2] == lower_byte(ext[2]));
        if ok {
            assert(lower_seq(ext) =~= seq![115u8, 114u8, 116u8]);
        } else {
            assert(lower_seq(ext) != seq![115u8, 114u8, 116u8]);
        }
    }
    ok
}

} // verus!
