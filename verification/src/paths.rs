//! Output-path construction: the input file's name, rebased into the
//! output directory, with its extension replaced by `kepub`.
use vstd::prelude::*;
use crate::errors::ConverterError;

verus! {

/// The last position of `c` in `s`, or minus one where `c` does not
/// occur.
pub open spec fn rfind(s: Seq<char>, c: char) -> int
    decreases s.len(),
{
    if s.len() == 0 {
        -1
    } else if s.last() == c {
        s.len() - 1
    } else {
        rfind(s.drop_last(), c)
    }
}

/// The part of the path after its last slash.
pub open spec fn file_name_of(path: Seq<char>) -> Seq<char> {
    path.subrange(rfind(path, '/') + 1, path.len() as int)
}

/// The file name without its extension: everything before the last dot,
/// unless the dot is absent or leads the name.
pub open spec fn stem_of(name: Seq<char>) -> Seq<char> {
    if rfind(name, '.') > 0 {
        name.subrange(0, rfind(name, '.'))
    } else {
        name
    }
}

/// The output path: the input's file name, its extension replaced by
/// `kepub`, under the output directory.
pub open spec fn out_path_of(input: Seq<char>, out_dir: Seq<char>) -> Seq<char> {
    out_dir + "/"@ + stem_of(file_name_of(input)) + ".kepub"@
}

/// Builds the output file path for one input book: the input's file name
/// is rebased into `out_dir` and given the `kepub` extension. An input
/// whose file name is empty (it ends in a slash, or is empty itself) is
/// refused.
pub fn get_out_file_path(input: &str, out_dir: &str) -> (r: Result<String, ConverterError>)
    ensures
        match r {
            Ok(s) => file_name_of(input@).len() > 0 && s@ == out_path_of(input@, out_dir@),
            Err(e) => e == ConverterError::IOError && file_name_of(input@).len() == 0,
        },
{
    let n: usize = input.unicode_len();
    let mut cut: usize = 0;
    let mut i: usize = 0;
    proof {
        assert(input@.subrange(0, 0) =~= Seq::<char>::empty());
    }
    while i < n
        invariant
            n == input@.len(),
            i <= n,
            cut <= i,
            cut as int == rfind(input@.subrange(0, i as int), '/') + 1,
        decreases n - i,
    {
        let ghost prefix = input@.subrange(0, i as int);
        let c: char = input.get_char(i);
        proof {
            assert(input@.subrange(0, i + 1) =~= prefix.push(c));
            assert(prefix.push(c).drop_last() =~= prefix);
            assert(prefix.push(c).last() == c);
        }
        if c == '/' {
            cut = i + 1;
        }
        i = i + 1;
    }
    proof {
        assert(input@.subrange(0, n as int) =~= input@);
    }
    let fname: &str = input.substring_char(cut, n);
    proof {
        assert(fname@ == file_name_of(input@));
    }
    let m: usize = fname.unicode_len();
    if m == 0 {
        return Err(ConverterError::IOError);
    }
    let mut dot_cut: usize = 0;
    let mut j: usize = 0;
    proof {
        assert(fname@.subrange(0, 0) =~= Seq::<char>::empty());
    }
    while j < m
        invariant
            m == fname@.len(),
            j <= m,
            dot_cut <= j,
            dot_cut as int == rfind(fname@.subrange(0, j as int), '.') + 1,
        decreases m - j,
    {
        let ghost prefix = fname@.subrange(0, j as int);
        let c: char = fname.get_char(j);
        proof {
            assert(fname@.subrange(0, j + 1) =~= prefix.push(c));
            assert(prefix.push(c).drop_last() =~= prefix);
            assert(prefix.push(c).last() == c);
        }
        if c == '.' {
            dot_cut = j + 1;
        }
        j = j + 1;
    }
    proof {
        assert(fname@.subrange(0, m as int) =~= fname@);
    }
    let stem: &str = if dot_cut > 1 {
        fname.substring_char(0, dot_cut - 1)
    } else {
        fname
    };
    proof {
        assert(stem@ == stem_of(file_name_of(input@)));
    }
    let mut out: String = out_dir.to_owned();
    out.append("/");
    out.append(stem);
    out.append(".kepub");
    proof {
        assert(((out_dir@ + "/"@) + stem@) + ".kepub"@ =~= out_path_of(input@, out_dir@));
    }
    Ok(out)
}

} // verus!
