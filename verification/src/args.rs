//! Command-line argument handling and the runner's path model.
//!
//! The surrounding program hands the library its argument vector as byte
//! strings; everything decided from it is verified here. Paths are byte
//! strings with `/` separators, read purely textually: a file name is what
//! stands after the last separator, a parent is what stands before it.

use vstd::prelude::*;
use vstd::string::StrSliceExecFns;
use vstd::string::StringSliceAdditionalSpecFns;
use crate::KbootError;
use crate::bytes::bytes_eq;
use crate::bytes::is_prefix_of;
use crate::bytes::starts_with;
use crate::bytes::sub_bytes;

verus! {

/// Which bootloader packs the kernel into its disk image.
#[derive(Clone, Copy, Debug, PartialEq, Eq, Structural)]
pub enum BootloaderSelection {
    BootloaderCrate,
    Limine,
}

// ---------------------------------------------------------------------------
// Flags
// ---------------------------------------------------------------------------
/// Does some argument equal `flag`?
pub open spec fn has_flag(args: Seq<Seq<u8>>, flag: Seq<u8>) -> bool {
    exists|i: int| 0 <= i < args.len() && args[i] == flag
}

/// Index of the first argument equal to `flag`.
pub open spec fn first_flag(args: Seq<Seq<u8>>, flag: Seq<u8>) -> int
    decreases args.len(),
{
    if args.len() == 0 {
        0
    } else if args[0] == flag {
        0
    } else {
        1 + first_flag(args.skip(1), flag)
    }
}

fn find_flag(args: &Vec<Vec<u8>>, flag: &Vec<u8>) -> (r: Option<usize>)
    ensures
        match r {
            Some(ix) => has_flag(args.deep_view(), flag@) && ix == first_flag(
                args.deep_view(),
                flag@,
            ) && ix < args@.len(),
            None => !has_flag(args.deep_view(), flag@),
        },
{
    let ghost av = args.deep_view();
    let mut i: usize = 0;
    proof {
        assert(av.skip(0) =~= av);
    }
    while i < args.len()
        invariant
            i <= args@.len(),
            av == args.deep_view(),
            forall|j: int| 0 <= j < i ==> av[j] != flag@,
            first_flag(av, flag@) == i + first_flag(av.skip(i as int), flag@),
        decreases args@.len() - i,
    {
        proof {
            assert(av.skip(i as int)[0] == av[i as int]);
            assert(av[i as int] == args@[i as int]@);
            assert(av.skip(i as int).skip(1) =~= av.skip(i as int + 1));
        }
        if bytes_eq(&args[i], flag) {
            proof {
                assert(first_flag(av.skip(i as int), flag@) == 0);
            }
            return Some(i);
        }
        i = i + 1;
    }
    proof {
        assert forall|j: int| 0 <= j < av.len() implies av[j] != flag@ by {
        }
    }
    None
}

/// Is test-result ingestion switched off?
pub fn is_no_ktest(args: &Vec<Vec<u8>>) -> (r: bool)
    ensures
        r == has_flag(args.deep_view(), "--no-ktest".spec_bytes()),
{
    find_flag(args, &"--no-ktest".as_bytes_vec()).is_some()
}

/// Is the legacy BIOS boot path selected?
pub fn is_legacy_boot(args: &Vec<Vec<u8>>) -> (r: bool)
    ensures
        r == has_flag(args.deep_view(), "--legacy-boot".spec_bytes()),
{
    find_flag(args, &"--legacy-boot".as_bytes_vec()).is_some()
}

/// Was a ramdisk path provided?
pub fn has_ramdisk(args: &Vec<Vec<u8>>) -> (r: bool)
    ensures
        r == has_flag(args.deep_view(), "--ramdisk".spec_bytes()),
{
    find_flag(args, &"--ramdisk".as_bytes_vec()).is_some()
}

/// Which bootloader the arguments select.
pub fn get_bootloader_selection(args: &Vec<Vec<u8>>) -> (r: BootloaderSelection)
    ensures
        r == (if has_flag(args.deep_view(), "--limine".spec_bytes()) {
            BootloaderSelection::Limine
        } else {
            BootloaderSelection::BootloaderCrate
        }),
{
    if find_flag(args, &"--limine".as_bytes_vec()).is_some() {
        BootloaderSelection::Limine
    } else {
        BootloaderSelection::BootloaderCrate
    }
}

// ---------------------------------------------------------------------------
// The executable and its path
// ---------------------------------------------------------------------------
/// Does this argument begin with a dash (an option rather than a value)?
pub open spec fn is_option_arg(a: Seq<u8>) -> bool {
    a.len() > 0 && a[0] == 45
}

/// The arguments that are not options, in order. The first is the runner's
/// own name; the last is the executable to boot.
pub open spec fn positional_of(args: Seq<Seq<u8>>) -> Seq<Seq<u8>>
    decreases args.len(),
{
    if args.len() == 0 {
        Seq::empty()
    } else {
        positional_of(args.drop_last()) + (if is_option_arg(args.last()) {
            Seq::empty()
        } else {
            seq![args.last()]
        })
    }
}

/// The executable to package and boot: the last argument that is not an
/// option. Fails when nothing but the runner's own name is there.
pub fn get_executable(args: &Vec<Vec<u8>>) -> (r: Result<Vec<u8>, KbootError>)
    ensures
        match r {
            Ok(exe) => positional_of(args.deep_view()).len() > 1 && exe@ == positional_of(
                args.deep_view(),
            ).last(),
            Err(e) => positional_of(args.deep_view()).len() <= 1 && e
                == KbootError::ArgumentFailedToParse,
        },
{
    let ghost av = args.deep_view();
    let mut found: Option<Vec<u8>> = None;
    let mut count: usize = 0;
    let mut i: usize = 0;
    proof {
        assert(av.subrange(0, 0) =~= Seq::<Seq<u8>>::empty());
    }
    while i < args.len()
        invariant
            i <= args@.len(),
            av == args.deep_view(),
            count == positional_of(av.subrange(0, i as int)).len(),
            count > 0 ==> (found matches Some(exe) && exe@ == positional_of(
                av.subrange(0, i as int),
            ).last()),
            count == 0 ==> found is None,
            count <= i,
        decreases args@.len() - i,
    {
        proof {
            assert(av.subrange(0, i as int + 1).drop_last() =~= av.subrange(0, i as int));
            assert(av.subrange(0, i as int + 1).last() == av[i as int]);
            assert(av[i as int] == args@[i as int]@);
        }
        let a = &args[i];
        if !(a.len() > 0 && a[0] == 45) {
            found = Some(crate::bytes::sub_bytes(a, 0, a.len()));
            proof {
                assert(a@.subrange(0, a@.len() as int) =~= a@);
            }
            count = count + 1;
        }
        i = i + 1;
    }
    proof {
        assert(av.subrange(0, av.len() as int) =~= av);
    }
    if count <= 1 {
        Err(KbootError::ArgumentFailedToParse)
    } else {
        match found {
            Some(exe) => Ok(exe),
            None => Err(KbootError::ArgumentFailedToParse),
        }
    }
}

/// Index of the last separator in a path, or -1.
pub open spec fn last_slash(p: Seq<u8>) -> int
    decreases p.len(),
{
    if p.len() == 0 {
        -1
    } else if p.last() == 47 {
        p.len() - 1
    } else {
        last_slash(p.drop_last())
    }
}

pub proof fn lemma_last_slash_bounds(p: Seq<u8>)
    ensures
        -1 <= last_slash(p) < p.len(),
    decreases p.len(),
{
    if p.len() > 0 && p.last() != 47 {
        lemma_last_slash_bounds(p.drop_last());
    }
}

/// What stands after the last separator (the whole path if there is none).
pub open spec fn file_name_of(p: Seq<u8>) -> Seq<u8> {
    p.subrange(last_slash(p) + 1, p.len() as int)
}

/// What stands before the last separator: the root for a top-level entry,
/// nothing for a bare name or the root itself.
pub open spec fn parent_of(p: Seq<u8>) -> Option<Seq<u8>> {
    let i = last_slash(p);
    if i < 0 {
        None
    } else if i == 0 {
        if p.len() == 1 {
            None
        } else {
            Some(seq![47u8])
        }
    } else {
        Some(p.subrange(0, i))
    }
}

/// Find the last separator, scanning backward.
fn last_slash_exec(p: &Vec<u8>) -> (r: Option<usize>)
    ensures
        match r {
            Some(ix) => last_slash(p@) == ix,
            None => last_slash(p@) == -1,
        },
{
    let mut k: usize = p.len();
    proof {
        assert(p@.subrange(0, k as int) =~= p@);
    }
    while k > 0
        invariant
            k <= p@.len(),
            last_slash(p@) == last_slash(p@.subrange(0, k as int)),
        decreases k,
    {
        proof {
            assert(p@.subrange(0, k as int).last() == p@[k - 1]);
            assert(p@.subrange(0, k as int).drop_last() =~= p@.subrange(0, k as int - 1));
        }
        if p[k - 1] == 47 {
            return Some(k - 1);
        }
        k = k - 1;
    }
    None
}

/// The file-name part of a path.
pub fn file_name_exec(p: &Vec<u8>) -> (r: Vec<u8>)
    ensures
        r@ == file_name_of(p@),
{
    proof {
        lemma_last_slash_bounds(p@);
    }
    match last_slash_exec(p) {
        Some(ix) => {
            let n: usize = p.len();
            assert(ix as int + 1 <= n as int);
            sub_bytes(p, ix + 1, n)
        },
        None => {
            let r = sub_bytes(p, 0, p.len());
            proof {
                assert(p@.subrange(0, p@.len() as int) =~= file_name_of(p@));
            }
            r
        },
    }
}

/// The parent of a path.
pub fn parent_exec(p: &Vec<u8>) -> (r: Option<Vec<u8>>)
    ensures
        match r {
            Some(par) => parent_of(p@) == Some(par@),
            None => parent_of(p@) is None,
        },
{
    proof {
        lemma_last_slash_bounds(p@);
    }
    match last_slash_exec(p) {
        Some(ix) => {
            if ix == 0 {
                if p.len() == 1 {
                    None
                } else {
                    let mut root: Vec<u8> = Vec::new();
                    root.push(47);
                    proof {
                        assert(root@ =~= seq![47u8]);
                    }
                    Some(root)
                }
            } else {
                Some(sub_bytes(p, 0, ix))
            }
        },
        None => None,
    }
}

/// The parent directory of the executable to boot.
pub fn get_executable_parent(args: &Vec<Vec<u8>>) -> (r: Result<Vec<u8>, KbootError>)
    ensures
        match r {
            Ok(par) => positional_of(args.deep_view()).len() > 1 && parent_of(
                positional_of(args.deep_view()).last(),
            ) == Some(par@),
            Err(e) => (positional_of(args.deep_view()).len() <= 1 || parent_of(
                positional_of(args.deep_view()).last(),
            ) is None) && e == KbootError::ArgumentFailedToParse,
        },
{
    let exe = match get_executable(args) {
        Ok(exe) => exe,
        Err(e) => {
            return Err(e);
        },
    };
    match parent_exec(&exe) {
        Some(par) => Ok(par),
        None => Err(KbootError::ArgumentFailedToParse),
    }
}

/// The file stem of a name: everything before the last dot, unless that dot
/// opens the name.
pub open spec fn stem_of_name(n: Seq<u8>) -> Seq<u8> {
    if last_dot(n) >= 1 {
        n.subrange(0, last_dot(n))
    } else {
        n
    }
}

/// Index of the last dot in a name, or -1.
pub open spec fn last_dot(n: Seq<u8>) -> int
    decreases n.len(),
{
    if n.len() == 0 {
        -1
    } else if n.last() == 46 {
        n.len() - 1
    } else {
        last_dot(n.drop_last())
    }
}

proof fn lemma_last_dot_bounds(n: Seq<u8>)
    ensures
        -1 <= last_dot(n) < n.len(),
    decreases n.len(),
{
    if n.len() > 0 && n.last() != 46 {
        lemma_last_dot_bounds(n.drop_last());
    }
}

fn last_dot_exec(n: &Vec<u8>) -> (r: Option<usize>)
    ensures
        match r {
            Some(ix) => last_dot(n@) == ix,
            None => last_dot(n@) == -1,
        },
{
    let mut k: usize = n.len();
    proof {
        assert(n@.subrange(0, k as int) =~= n@);
    }
    while k > 0
        invariant
            k <= n@.len(),
            last_dot(n@) == last_dot(n@.subrange(0, k as int)),
        decreases k,
    {
        proof {
            assert(n@.subrange(0, k as int).last() == n@[k - 1]);
            assert(n@.subrange(0, k as int).drop_last() =~= n@.subrange(0, k as int - 1));
        }
        if n[k - 1] == 46 {
            return Some(k - 1);
        }
        k = k - 1;
    }
    None
}

/// The stem of the executable's file name: fails when the executable cannot
/// be determined or its file name is empty.
pub fn get_file_stem(args: &Vec<Vec<u8>>) -> (r: Result<Vec<u8>, KbootError>)
    ensures
        match r {
            Ok(stem) => positional_of(args.deep_view()).len() > 1 && file_name_of(
                positional_of(args.deep_view()).last(),
            ).len() > 0 && stem@ == stem_of_name(
                file_name_of(positional_of(args.deep_view()).last()),
            ),
            Err(e) => (positional_of(args.deep_view()).len() <= 1 || file_name_of(
                positional_of(args.deep_view()).last(),
            ).len() == 0) && e == KbootError::ArgumentFailedToParse,
        },
{
    let exe = match get_executable(args) {
        Ok(exe) => exe,
        Err(e) => {
            return Err(e);
        },
    };
    let name = file_name_exec(&exe);
    if name.len() == 0 {
        return Err(KbootError::ArgumentFailedToParse);
    }
    proof {
        lemma_last_dot_bounds(name@);
    }
    match last_dot_exec(&name) {
        Some(ix) => {
            if ix >= 1 {
                Ok(sub_bytes(&name, 0, ix))
            } else {
                Ok(name)
            }
        },
        None => Ok(name),
    }
}

/// Walking up from the executable's parent: the first ancestor whose own
/// parent's file name is `target` marks the workspace; its grandparent is
/// the root. A path with no such ancestor answers with its topmost ancestor.
pub open spec fn workspace_root_of(cur: Seq<u8>) -> Result<Seq<u8>, ()>
    decreases cur.len(),
{
    match parent_of(cur) {
        None => Ok(cur),
        Some(par) => if file_name_of(par) == "target".spec_bytes() {
            match parent_of(par) {
                Some(root) => Ok(root),
                None => Err(()),
            }
        } else {
            if par.len() < cur.len() {
                workspace_root_of(par)
            } else {
                Err(())
            }
        },
    }
}

proof fn lemma_parent_shorter(p: Seq<u8>)
    ensures
        parent_of(p) matches Some(par) ==> par.len() < p.len(),
{
    lemma_last_slash_bounds(p);
}

/// The workspace root, derived from the executable's path.
pub fn get_workspace_root(args: &Vec<Vec<u8>>) -> (r: Result<Vec<u8>, KbootError>)
    ensures
        match r {
            Ok(root) => positional_of(args.deep_view()).len() > 1 && (parent_of(
                positional_of(args.deep_view()).last(),
            ) matches Some(start) && workspace_root_of(start) == Ok::<Seq<u8>, ()>(root@)),
            Err(e) => e == KbootError::ArgumentFailedToParse && (positional_of(
                args.deep_view(),
            ).len() <= 1 || parent_of(positional_of(args.deep_view()).last()) is None
                || (parent_of(positional_of(args.deep_view()).last()) matches Some(start)
                && workspace_root_of(start) == Err::<Seq<u8>, ()>(()))),
        },
{
    let mut cur = match get_executable_parent(args) {
        Ok(par) => par,
        Err(e) => {
            return Err(e);
        },
    };
    loop
        invariant
            positional_of(args.deep_view()).len() > 1,
            parent_of(positional_of(args.deep_view()).last()) matches Some(start)
                && workspace_root_of(start) == workspace_root_of(cur@),
        decreases cur@.len(),
    {
        proof {
            lemma_parent_shorter(cur@);
        }
        let par = match parent_exec(&cur) {
            Some(par) => par,
            None => {
                return Ok(cur);
            },
        };
        let name = file_name_exec(&par);
        if bytes_eq(&name, &"target".as_bytes_vec()) {
            proof {
                lemma_parent_shorter(par@);
            }
            match parent_exec(&par) {
                Some(root) => {
                    return Ok(root);
                },
                None => {
                    return Err(KbootError::ArgumentFailedToParse);
                },
            }
        }
        cur = par;
    }
}

/// Is the executable a documentation-test binary? Its parent directory's
/// name then begins with `rustdoctest`.
pub fn is_doctest(args: &Vec<Vec<u8>>) -> (r: Result<bool, KbootError>)
    ensures
        match r {
            Ok(b) => positional_of(args.deep_view()).len() > 1 && (parent_of(
                positional_of(args.deep_view()).last(),
            ) matches Some(par) && file_name_of(par).len() > 0 && b == is_prefix_of(
                "rustdoctest".spec_bytes(),
                file_name_of(par),
            )),
            Err(e) => e == KbootError::ArgumentFailedToParse && (positional_of(
                args.deep_view(),
            ).len() <= 1 || parent_of(positional_of(args.deep_view()).last()) is None || (parent_of(
                positional_of(args.deep_view()).last(),
            ) matches Some(par) && file_name_of(par).len() == 0)),
        },
{
    let par = match get_executable_parent(args) {
        Ok(par) => par,
        Err(e) => {
            return Err(e);
        },
    };
    let name = file_name_exec(&par);
    if name.len() == 0 {
        return Err(KbootError::ArgumentFailedToParse);
    }
    Ok(starts_with(&name, &"rustdoctest".as_bytes_vec()))
}

/// Is the executable a test binary? Either a documentation test, or built
/// into a `deps` directory.
pub fn is_test(args: &Vec<Vec<u8>>) -> (r: Result<bool, KbootError>)
    ensures
        match r {
            Ok(b) => positional_of(args.deep_view()).len() > 1 && (parent_of(
                positional_of(args.deep_view()).last(),
            ) matches Some(par) && file_name_of(par).len() > 0 && b == (is_prefix_of(
                "rustdoctest".spec_bytes(),
                file_name_of(par),
            ) || file_name_of(par) == "deps".spec_bytes())),
            Err(e) => e == KbootError::ArgumentFailedToParse,
        },
{
    let doctest = match is_doctest(args) {
        Ok(b) => b,
        Err(e) => {
            return Err(e);
        },
    };
    let par = match get_executable_parent(args) {
        Ok(par) => par,
        Err(e) => {
            return Err(e);
        },
    };
    let name = file_name_exec(&par);
    Ok(doctest || bytes_eq(&name, &"deps".as_bytes_vec()))
}

/// The manifest file under a manifest directory.
pub fn get_manifest_toml(manifest_dir: &Vec<u8>) -> (r: Vec<u8>)
    ensures
        r@ == manifest_dir@ + "/Cargo.toml".spec_bytes(),
{
    let mut out: Vec<u8> = Vec::new();
    crate::bytes::push_bytes(&mut out, manifest_dir.as_slice());
    crate::bytes::push_bytes(&mut out, "/Cargo.toml".as_bytes_vec().as_slice());
    out
}

// ---------------------------------------------------------------------------
// The bootloader configuration file
// ---------------------------------------------------------------------------
/// Is this the bootloader configuration file's name?
pub fn is_limine_conf_name(name: &Vec<u8>) -> (r: bool)
    ensures
        r == (name@ == "limine.conf".spec_bytes()),
{
    bytes_eq(name, &"limine.conf".as_bytes_vec())
}

/// Should a directory scan descend into this directory? Build outputs and
/// hidden directories are left alone.
pub fn should_scan_directory(name: &Vec<u8>) -> (r: bool)
    ensures
        r == (name@ != "target".spec_bytes() && name@ != ".build".spec_bytes() && !is_prefix_of(
            ".".spec_bytes(),
            name@,
        )),
{
    !bytes_eq(name, &"target".as_bytes_vec()) && !bytes_eq(name, &".build".as_bytes_vec())
        && !starts_with(name, &".".as_bytes_vec())
}

/// The bootloader configuration file found by the caller's workspace scan;
/// no file found is an error.
pub fn get_limine_conf(found: Option<Vec<u8>>) -> (r: Result<Vec<u8>, KbootError>)
    ensures
        match r {
            Ok(p) => found matches Some(f) && p@ == f@,
            Err(e) => found is None && e == KbootError::ArgumentFailedToParse,
        },
{
    match found {
        Some(p) => Ok(p),
        None => Err(KbootError::ArgumentFailedToParse),
    }
}


// ---------------------------------------------------------------------------
// Quoted argument groups
// ---------------------------------------------------------------------------
pub open spec fn starts_quote(a: Seq<u8>) -> bool {
    a.len() > 0 && a[0] == 34
}

pub open spec fn ends_quote(a: Seq<u8>) -> bool {
    a.len() > 0 && a.last() == 34
}

/// Does some argument end with a quote?
pub open spec fn has_closer(args: Seq<Seq<u8>>) -> bool {
    exists|j: int| 0 <= j < args.len() && ends_quote(args[j])
}

/// Does a quote open somewhere and never close? The scan opens at the first
/// argument beginning with a quote and closes at the first argument from
/// there on that ends with one.
pub open spec fn unclosed_quote(args: Seq<Seq<u8>>) -> bool
    decreases args.len(),
{
    if args.len() == 0 {
        false
    } else if starts_quote(args[0]) {
        !has_closer(args)
    } else {
        unclosed_quote(args.skip(1))
    }
}

/// Were extra VM options requested, with their quoting intact? Requesting
/// them with an unclosed quote is rejected up front by the caller, so this
/// function need not decide that case.
pub fn has_qemu_options(args: &Vec<Vec<u8>>) -> (r: bool)
    requires
        !(has_flag(args.deep_view(), "--qemu".spec_bytes()) && unclosed_quote(args.deep_view())),
    ensures
        r == (has_flag(args.deep_view(), "--qemu".spec_bytes()) && !unclosed_quote(
            args.deep_view(),
        )),
{
    let ghost av = args.deep_view();
    let has_arg = find_flag(args, &"--qemu".as_bytes_vec()).is_some();
    let mut i: usize = 0;
    proof {
        assert(av.skip(0) =~= av);
    }
    while i < args.len()
        invariant
            i <= args@.len(),
            av == args.deep_view(),
            has_arg == has_flag(av, "--qemu".spec_bytes()),
            unclosed_quote(av) == unclosed_quote(av.skip(i as int)),
        decreases args@.len() - i,
    {
        proof {
            assert(av.skip(i as int)[0] == av[i as int]);
            assert(av[i as int] == args@[i as int]@);
            assert(av.skip(i as int).skip(1) =~= av.skip(i as int + 1));
        }
        let a = &args[i];
        if a.len() > 0 && a[0] == 34 {
            // a quote opens here: unclosed unless something from here on closes it
            let mut j: usize = i;
            while j < args.len()
                invariant
                    i <= j <= args@.len(),
                    av == args.deep_view(),
                    has_arg == has_flag(av, "--qemu".spec_bytes()),
                    unclosed_quote(av) == !has_closer(av.skip(i as int)),
                    forall|k: int| i <= k < j ==> !ends_quote(av[k]),
                decreases args@.len() - j,
            {
                proof {
                    assert(av[j as int] == args@[j as int]@);
                }
                let b = &args[j];
                if b.len() > 0 && b[b.len() - 1] == 34 {
                    proof {
                        assert(ends_quote(av[j as int]));
                        assert(av.skip(i as int)[j - i] == av[j as int]);
                        assert(has_closer(av.skip(i as int)));
                    }
                    return has_arg;
                }
                j = j + 1;
            }
            proof {
                assert forall|k: int| 0 <= k < av.skip(i as int).len() implies !ends_quote(
                    av.skip(i as int)[k],
                ) by {
                    assert(av.skip(i as int)[k] == av[i + k]);
                }
                assert(!has_closer(av.skip(i as int)));
            }
            return false;
        }
        i = i + 1;
    }
    proof {
        assert(av.skip(args@.len() as int).len() == 0);
    }
    has_arg
}

/// The bytes gathered from a quoted run of arguments, joined with single
/// spaces, and whether a quote was open when the run ended.
pub open spec fn quoted_run(args: Seq<Seq<u8>>, in_q: bool) -> (Seq<u8>, bool)
    decreases args.len(),
{
    if args.len() == 0 {
        (Seq::empty(), in_q)
    } else {
        let q1 = in_q || starts_quote(args[0]);
        let add: Seq<u8> = if q1 {
            args[0] + seq![32u8]
        } else {
            Seq::empty()
        };
        if ends_quote(args[0]) {
            (add, q1)
        } else {
            let rest = quoted_run(args.skip(1), q1);
            (add + rest.0, rest.1)
        }
    }
}

pub open spec fn is_blank(b: u8) -> bool {
    b == 9 || b == 10 || b == 11 || b == 12 || b == 13 || b == 32
}

/// Length of the blank prefix.
pub open spec fn lead_while(s: Seq<u8>, i: int, pred: spec_fn(u8) -> bool) -> int
    decreases s.len() - i,
{
    if 0 <= i < s.len() && pred(s[i]) {
        1 + lead_while(s, i + 1, pred)
    } else {
        0
    }
}

/// Length of the blank suffix.
pub open spec fn trail_while(s: Seq<u8>, pred: spec_fn(u8) -> bool) -> int
    decreases s.len(),
{
    if s.len() > 0 && pred(s.last()) {
        1 + trail_while(s.drop_last(), pred)
    } else {
        0
    }
}

proof fn lemma_lead_while_bounds(s: Seq<u8>, i: int, pred: spec_fn(u8) -> bool)
    requires
        0 <= i <= s.len(),
    ensures
        0 <= lead_while(s, i, pred) <= s.len() - i,
        i + lead_while(s, i, pred) < s.len() ==> !pred(s[i + lead_while(s, i, pred)]),
        forall|k: int| i <= k < i + lead_while(s, i, pred) ==> pred(s[k]),
    decreases s.len() - i,
{
    if i < s.len() && pred(s[i]) {
        lemma_lead_while_bounds(s, i + 1, pred);
    }
}

proof fn lemma_trail_while_bounds(s: Seq<u8>, pred: spec_fn(u8) -> bool)
    ensures
        0 <= trail_while(s, pred) <= s.len(),
        forall|k: int| s.len() - trail_while(s, pred) <= k < s.len() ==> pred(s[k]),
        s.len() - trail_while(s, pred) > 0 ==> !pred(s[s.len() - trail_while(s, pred) - 1]),
    decreases s.len(),
{
    if s.len() > 0 && pred(s.last()) {
        lemma_trail_while_bounds(s.drop_last(), pred);
        assert forall|k: int| s.len() - trail_while(s, pred) <= k < s.len() implies pred(
            s[k],
        ) by {
            if k < s.len() - 1 {
                assert(s.drop_last()[k] == s[k]);
            }
        }
        if s.len() - trail_while(s, pred) > 0 {
            assert(s.drop_last()[s.len() - trail_while(s, pred) - 1] == s[s.len() - trail_while(
                s,
                pred,
            ) - 1]);
        }
    }
}

/// Both ends trimmed of blanks, the front first.
pub open spec fn trim_blanks(s: Seq<u8>) -> Seq<u8> {
    let a = lead_while(s, 0, |b: u8| is_blank(b));
    let s2 = s.subrange(a, s.len() as int);
    let b = trail_while(s2, |b: u8| is_blank(b));
    s2.subrange(0, s2.len() - b)
}

/// Both ends stripped of quote characters, the front first.
pub open spec fn strip_quotes(s: Seq<u8>) -> Seq<u8> {
    let a = lead_while(s, 0, |b: u8| b == 34);
    let s2 = s.subrange(a, s.len() as int);
    let b = trail_while(s2, |b: u8| b == 34);
    s2.subrange(0, s2.len() - b)
}

/// Index of the first space at or after `i`, or -1.
pub open spec fn first_space_from(s: Seq<u8>, i: int) -> int
    decreases s.len() - i,
{
    if !(0 <= i < s.len()) {
        -1
    } else if s[i] == 32 {
        i
    } else {
        first_space_from(s, i + 1)
    }
}

proof fn lemma_first_space_bounds(s: Seq<u8>, i: int)
    requires
        0 <= i <= s.len(),
    ensures
        first_space_from(s, i) == -1 || i <= first_space_from(s, i) < s.len(),
    decreases s.len() - i,
{
    if i < s.len() && s[i] != 32 {
        lemma_first_space_bounds(s, i + 1);
    }
}

/// The pieces of `s` from `pos` on, split at every space.
pub open spec fn split_from(s: Seq<u8>, pos: int) -> Seq<Seq<u8>>
    decreases s.len() - pos,
{
    let j = first_space_from(s, pos);
    if pos <= j < s.len() {
        seq![s.subrange(pos, j)] + split_from(s, j + 1)
    } else {
        seq![s.subrange(pos, s.len() as int)]
    }
}

/// What a quoted group of arguments starting at `start` means: nothing when
/// no quote opens, else the gathered bytes trimmed, split at spaces, and
/// each piece stripped of quotes.
pub open spec fn quoted_args_of(args: Seq<Seq<u8>>, start: int) -> Option<Seq<Seq<u8>>> {
    let run = quoted_run(args.skip(start), false);
    if run.1 {
        Some(split_from(trim_blanks(run.0), 0).map_values(|p: Seq<u8>| strip_quotes(p)))
    } else {
        None
    }
}

/// Strip quote characters from both ends.
fn strip_quotes_exec(s: &Vec<u8>) -> (r: Vec<u8>)
    ensures
        r@ == strip_quotes(s@),
{
    proof {
        lemma_lead_while_bounds(s@, 0, |b: u8| b == 34);
    }
    let mut a: usize = 0;
    while a < s.len() && s[a] == 34
        invariant
            a <= s@.len(),
            forall|k: int| 0 <= k < a ==> s@[k] == 34,
            lead_while(s@, 0, |b: u8| b == 34) == a + lead_while(s@, a as int, |b: u8| b == 34),
        decreases s@.len() - a,
    {
        a = a + 1;
    }
    proof {
        assert(lead_while(s@, a as int, |b: u8| b == 34) == 0);
    }
    let s2 = sub_bytes(s, a, s.len());
    proof {
        lemma_trail_while_bounds(s2@, |b: u8| b == 34);
    }
    let mut e: usize = s2.len();
    proof {
        assert(s2@.subrange(0, s2@.len() as int) =~= s2@);
    }
    while e > 0 && s2[e - 1] == 34
        invariant
            e <= s2@.len(),
            forall|k: int| e <= k < s2@.len() ==> s2@[k] == 34,
            trail_while(s2@, |b: u8| b == 34) == (s2@.len() - e) + trail_while(
                s2@.subrange(0, e as int),
                |b: u8| b == 34,
            ),
        decreases e,
    {
        proof {
            assert(s2@.subrange(0, e as int).last() == s2@[e - 1]);
            assert(s2@.subrange(0, e as int).drop_last() =~= s2@.subrange(0, e as int - 1));
        }
        e = e - 1;
    }
    proof {
        if e > 0 {
            assert(s2@.subrange(0, e as int).last() == s2@[e - 1]);
        }
        assert(trail_while(s2@.subrange(0, e as int), |b: u8| b == 34) == 0);
        assert(trail_while(s2@, |b: u8| b == 34) == s2@.len() - e);
    }
    sub_bytes(&s2, 0, e)
}

/// Gather a quoted group of arguments beginning at `start_index`: the pieces
/// between the quotes, split at spaces. Nothing is returned when no quote
/// opens in the group.
pub fn get_quoted_args(args: &Vec<Vec<u8>>, start_index: usize) -> (r: Result<
    Vec<Vec<u8>>,
    KbootError,
>)
    requires
        start_index <= args@.len(),
    ensures
        match r {
            Ok(v) => quoted_args_of(args.deep_view(), start_index as int) == Some(v.deep_view()),
            Err(e) => quoted_args_of(args.deep_view(), start_index as int) is None && e
                == KbootError::ArgumentFailedToParse,
        },
{
    let ghost av = args.deep_view();
    let ghost target = quoted_run(av.skip(start_index as int), false);
    let mut combined: Vec<u8> = Vec::new();
    let mut in_q: bool = false;
    let mut i: usize = start_index;
    let mut broke: bool = false;
    proof {
        assert(combined@ + quoted_run(av.skip(start_index as int), false).0 =~= quoted_run(
            av.skip(start_index as int),
            false,
        ).0);
    }
    while i < args.len() && !broke
        invariant
            start_index <= i <= args@.len(),
            av == args.deep_view(),
            target == quoted_run(av.skip(start_index as int), false),
            !broke ==> target.0 == combined@ + quoted_run(av.skip(i as int), in_q).0 && target.1
                == quoted_run(av.skip(i as int), in_q).1,
            broke ==> target.0 == combined@ && target.1 == in_q,
        decreases args@.len() - i,
    {
        proof {
            assert(av.skip(i as int)[0] == av[i as int]);
            assert(av[i as int] == args@[i as int]@);
            assert(av.skip(i as int).skip(1) =~= av.skip(i as int + 1));
        }
        let a = &args[i];
        let ghost c0 = combined@;
        let ghost q0 = in_q;
        if a.len() > 0 && a[0] == 34 {
            in_q = true;
        }
        proof {
            assert(in_q == (q0 || starts_quote(av[i as int])));
        }
        let ghost addv: Seq<u8> = if in_q {
            av[i as int] + seq![32u8]
        } else {
            Seq::empty()
        };
        if in_q {
            crate::bytes::push_bytes(&mut combined, a.as_slice());
            combined.push(32);
            proof {
                assert(combined@ =~= c0 + addv);
            }
        } else {
            proof {
                assert(combined@ =~= c0 + addv);
            }
        }
        if a.len() > 0 && a[a.len() - 1] == 34 {
            proof {
                assert(ends_quote(av[i as int]));
                assert(quoted_run(av.skip(i as int), q0) == (addv, in_q));
            }
            broke = true;
        } else {
            proof {
                assert(!ends_quote(av[i as int]));
                let rest = quoted_run(av.skip(i as int + 1), in_q);
                assert(quoted_run(av.skip(i as int), q0) == (addv + rest.0, rest.1));
                assert(c0 + (addv + rest.0) =~= (c0 + addv) + rest.0);
            }
        }
        i = i + 1;
    }
    proof {
        if !broke {
            assert(av.skip(i as int).len() == 0);
            assert(quoted_run(av.skip(i as int), in_q) == (Seq::<u8>::empty(), in_q));
            assert(combined@ + Seq::<u8>::empty() =~= combined@);
        }
        assert(target.0 == combined@ && target.1 == in_q);
    }
    if !in_q {
        return Err(KbootError::ArgumentFailedToParse);
    }
    // trim the gathered bytes
    proof {
        lemma_lead_while_bounds(combined@, 0, |b: u8| is_blank(b));
    }
    let mut lead: usize = 0;
    while lead < combined.len() && (combined[lead] == 9 || combined[lead] == 10 || combined[lead]
        == 11 || combined[lead] == 12 || combined[lead] == 13 || combined[lead] == 32)
        invariant
            lead <= combined@.len(),
            lead_while(combined@, 0, |b: u8| is_blank(b)) == lead + lead_while(
                combined@,
                lead as int,
                |b: u8| is_blank(b),
            ),
        decreases combined@.len() - lead,
    {
        lead = lead + 1;
    }
    proof {
        assert(lead_while(combined@, lead as int, |b: u8| is_blank(b)) == 0);
    }
    let s2 = sub_bytes(&combined, lead, combined.len());
    proof {
        lemma_trail_while_bounds(s2@, |b: u8| is_blank(b));
    }
    let mut e: usize = s2.len();
    proof {
        assert(s2@.subrange(0, s2@.len() as int) =~= s2@);
    }
    while e > 0 && (s2[e - 1] == 9 || s2[e - 1] == 10 || s2[e - 1] == 11 || s2[e - 1] == 12 || s2[e
        - 1] == 13 || s2[e - 1] == 32)
        invariant
            e <= s2@.len(),
            trail_while(s2@, |b: u8| is_blank(b)) == (s2@.len() - e) + trail_while(
                s2@.subrange(0, e as int),
                |b: u8| is_blank(b),
            ),
        decreases e,
    {
        proof {
            assert(s2@.subrange(0, e as int).last() == s2@[e - 1]);
            assert(s2@.subrange(0, e as int).drop_last() =~= s2@.subrange(0, e as int - 1));
        }
        e = e - 1;
    }
    proof {
        if e > 0 {
            assert(s2@.subrange(0, e as int).last() == s2@[e - 1]);
        }
        assert(trail_while(s2@.subrange(0, e as int), |b: u8| is_blank(b)) == 0);
        assert(trail_while(s2@, |b: u8| is_blank(b)) == s2@.len() - e);
    }
    let trimmed = sub_bytes(&s2, 0, e);
    proof {
        assert(trimmed@ == trim_blanks(target.0));
    }
    // split at spaces and strip quotes from each piece
    let ghost ts = trimmed@;
    let mut pieces: Vec<Vec<u8>> = Vec::new();
    let mut pos: usize = 0;
    proof {
        assert(pieces.deep_view() + split_from(ts, 0).map_values(|p: Seq<u8>| strip_quotes(p))
            =~~= split_from(ts, 0).map_values(|p: Seq<u8>| strip_quotes(p)));
    }
    loop
        invariant
            pos <= ts.len(),
            ts == trimmed@,
            av == args.deep_view(),
            target == quoted_run(av.skip(start_index as int), false),
            target.1,
            ts == trim_blanks(target.0),
            split_from(ts, 0).map_values(|p: Seq<u8>| strip_quotes(p)) == pieces.deep_view()
                + split_from(ts, pos as int).map_values(|p: Seq<u8>| strip_quotes(p)),
        decreases ts.len() - pos,
    {
        proof {
            lemma_first_space_bounds(ts, pos as int);
        }
        let mut sp: usize = pos;
        while sp < trimmed.len() && trimmed[sp] != 32
            invariant
                pos <= sp <= ts.len(),
                ts == trimmed@,
                first_space_from(ts, pos as int) == first_space_from(ts, sp as int),
            decreases ts.len() - sp,
        {
            sp = sp + 1;
        }
        if sp == trimmed.len() {
            proof {
                assert(first_space_from(ts, sp as int) == -1);
            }
            let piece = sub_bytes(&trimmed, pos, sp);
            let stripped = strip_quotes_exec(&piece);
            let ghost before = pieces.deep_view();
            pieces.push(stripped);
            proof {
                assert(split_from(ts, pos as int) =~= seq![ts.subrange(pos as int, ts.len() as int)]);
                assert(pieces.deep_view() =~~= before + split_from(ts, pos as int).map_values(
                    |p: Seq<u8>| strip_quotes(p),
                ));
            }
            return Ok(pieces);
        }
        proof {
            assert(ts[sp as int] == 32);
            assert(first_space_from(ts, sp as int) == sp);
        }
        let piece = sub_bytes(&trimmed, pos, sp);
        let stripped = strip_quotes_exec(&piece);
        let ghost before = pieces.deep_view();
        pieces.push(stripped);
        proof {
            assert(split_from(ts, pos as int) =~= seq![ts.subrange(pos as int, sp as int)]
                + split_from(ts, sp as int + 1));
            assert(pieces.deep_view() =~~= before + seq![strip_quotes(ts.subrange(
                pos as int,
                sp as int,
            ))]);
            assert(split_from(ts, 0).map_values(|p: Seq<u8>| strip_quotes(p))
                =~~= pieces.deep_view() + split_from(ts, sp as int + 1).map_values(
                |p: Seq<u8>| strip_quotes(p),
            ));
        }
        pos = sp + 1;
    }
}

/// The extra VM options given after the `--qemu` flag.
pub fn get_qemu_options(args: &Vec<Vec<u8>>) -> (r: Result<Vec<Vec<u8>>, KbootError>)
    ensures
        match r {
            Ok(v) => has_flag(args.deep_view(), "--qemu".spec_bytes()) && quoted_args_of(
                args.deep_view(),
                first_flag(args.deep_view(), "--qemu".spec_bytes()) + 1,
            ) == Some(v.deep_view()),
            Err(e) => e == KbootError::ArgumentFailedToParse && (!has_flag(
                args.deep_view(),
                "--qemu".spec_bytes(),
            ) || quoted_args_of(
                args.deep_view(),
                first_flag(args.deep_view(), "--qemu".spec_bytes()) + 1,
            ) is None),
        },
{
    let ix = match find_flag(args, &"--qemu".as_bytes_vec()) {
        Some(ix) => ix,
        None => {
            return Err(KbootError::ArgumentFailedToParse);
        },
    };
    let n: usize = args.len();
    assert(ix < n);
    get_quoted_args(args, ix + 1)
}

/// The ramdisk path given after the `--ramdisk` flag: nothing when the flag
/// is absent, exactly one quoted path when it is present.
pub fn get_ramdisk_path(args: &Vec<Vec<u8>>) -> (r: Result<Option<Vec<u8>>, KbootError>)
    ensures
        match r {
            Ok(o) => match o {
                None => !has_flag(args.deep_view(), "--ramdisk".spec_bytes()),
                Some(p) => has_flag(args.deep_view(), "--ramdisk".spec_bytes()) && (quoted_args_of(
                    args.deep_view(),
                    first_flag(args.deep_view(), "--ramdisk".spec_bytes()) + 1,
                ) matches Some(q) && q.len() == 1 && p@ == q[0]),
            },
            Err(e) => e == KbootError::ArgumentFailedToParse && has_flag(
                args.deep_view(),
                "--ramdisk".spec_bytes(),
            ) && (quoted_args_of(
                args.deep_view(),
                first_flag(args.deep_view(), "--ramdisk".spec_bytes()) + 1,
            ) matches Some(q) ==> q.len() != 1),
        },
{
    let ix = match find_flag(args, &"--ramdisk".as_bytes_vec()) {
        Some(ix) => ix,
        None => {
            return Ok(None);
        },
    };
    let n: usize = args.len();
    assert(ix < n);
    let quoted = match get_quoted_args(args, ix + 1) {
        Ok(q) => q,
        Err(e) => {
            return Err(e);
        },
    };
    if quoted.len() != 1 {
        return Err(KbootError::ArgumentFailedToParse);
    }
    let ghost qv = quoted.deep_view();
    let mut quoted = quoted;
    match quoted.pop() {
        Some(p) => {
            proof {
                assert(p@ == qv[0]);
            }
            Ok(Some(p))
        },
        None => Err(KbootError::ArgumentFailedToParse),
    }
}

} // verus!
