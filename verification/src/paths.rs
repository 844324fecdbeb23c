//! Composition of the tool and artifact paths the pipeline works with.
//! The caller supplies the directories (they come from the environment);
//! this module owns how the pieces are joined.
use vstd::prelude::*;

use crate::RepackError;
use crate::text::{append_chars, chars_of, clone_chars};

verus! {

/// A directory and a name joined with a single separator.
pub open spec fn path_join(dir: Seq<char>, name: Seq<char>) -> Seq<char> {
    dir + seq!['/'] + name
}

/// Exec mirror of `path_join`.
pub fn join_path(dir: &Vec<char>, name: &Vec<char>) -> (r: Vec<char>)
    ensures
        r@ == path_join(dir@, name@),
{
    let mut r = clone_chars(dir);
    r.push('/');
    proof {
        assert(r@ =~= dir@ + seq!['/']);
    }
    append_chars(&mut r, name);
    r
}

/// The decompile/build tool, kept beside the executable.
pub fn get_apktool_jar_path(exe_dir: &Vec<char>) -> (r: Vec<char>)
    ensures
        r@ == path_join(exe_dir@, "apktool.jar"@),
{
    let name = chars_of("apktool.jar");
    join_path(exe_dir, &name)
}

/// The channel-marker tool, kept beside the executable.
pub fn get_vasdolly_jar_path(exe_dir: &Vec<char>) -> (r: Vec<char>)
    ensures
        r@ == path_join(exe_dir@, "vasdolly.jar"@),
{
    let name = chars_of("vasdolly.jar");
    join_path(exe_dir, &name)
}

/// The signing tool, kept beside the executable.
pub fn get_apksigner_jar_path(exe_dir: &Vec<char>) -> (r: Vec<char>)
    ensures
        r@ == path_join(exe_dir@, "uber-apk-signer.jar"@),
{
    let name = chars_of("uber-apk-signer.jar");
    join_path(exe_dir, &name)
}

/// The signing keystore, kept beside the executable.
pub fn get_key_store_path(exe_dir: &Vec<char>) -> (r: Vec<char>)
    ensures
        r@ == path_join(exe_dir@, "key.keystore"@),
{
    let name = chars_of("key.keystore");
    join_path(exe_dir, &name)
}

/// The cache slot of one run: a stamped directory beside the executable.
pub fn cache_slot_path(exe_dir: &Vec<char>, stamp: &Vec<char>) -> (r: Vec<char>)
    ensures
        r@ == path_join(exe_dir@, stamp@),
{
    join_path(exe_dir, stamp)
}

/// The directory a package is decompiled into.
pub fn unpack_dir_path(cache_dir: &Vec<char>) -> (r: Vec<char>)
    ensures
        r@ == path_join(cache_dir@, "original"@),
{
    let name = chars_of("original");
    join_path(cache_dir, &name)
}

/// The rebuilt artifact: `<base>.repacked.apk` inside the cache slot.
pub fn repacked_artifact_path(cache_dir: &Vec<char>, base_name: &Vec<char>) -> (r: Vec<char>)
    ensures
        r@ == path_join(cache_dir@, base_name@ + ".repacked.apk"@),
{
    let mut name = clone_chars(base_name);
    let suffix = chars_of(".repacked.apk");
    append_chars(&mut name, &suffix);
    join_path(cache_dir, &name)
}

/// The destination the finished package is moved to: the source path with
/// `.repacked.apk` appended.
pub fn repacked_dest_path(source_apk: &Vec<char>) -> (r: Vec<char>)
    ensures
        r@ == source_apk@ + ".repacked.apk"@,
{
    let mut r = clone_chars(source_apk);
    let suffix = chars_of(".repacked.apk");
    append_chars(&mut r, &suffix);
    r
}

/// The java executable under a home directory; an empty home is the error
/// the pipeline reports when the environment gives none.
pub fn java_exe_path(java_home: &Vec<char>, windows: bool) -> (r: Result<Vec<char>, RepackError>)
    ensures
        match r {
            Result::Ok(p) => java_home@.len() > 0 && p@ == path_join(
                path_join(java_home@, "bin"@),
                if windows {
                    "javaw.exe"@
                } else {
                    "java"@
                },
            ),
            Result::Err(e) => java_home@.len() == 0 && e == RepackError::ToolInvocation,
        },
{
    if java_home.len() == 0 {
        return Result::Err(RepackError::ToolInvocation);
    }
    let bin = chars_of("bin");
    let dir = join_path(java_home, &bin);
    let exe = if windows {
        chars_of("javaw.exe")
    } else {
        chars_of("java")
    };
    Result::Ok(join_path(&dir, &exe))
}

} // verus!
