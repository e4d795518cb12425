//! Where the viewer's resource files lie.

use vstd::prelude::*;

verus! {

/// The components of the path of a resource file, outermost first: the
/// output directory, the directory `res` in it, and the file's name.
pub fn get_path_for_file(out_dir: &str, file_name: &str) -> (r: Vec<String>)
    ensures
        r.len() == 3,
        r[0]@ == out_dir@,
        r[1]@ == "res"@,
        r[2]@ == file_name@,
{
    let mut parts: Vec<String> = Vec::new();
    parts.push(out_dir.to_owned());
    parts.push("res".to_owned());
    parts.push(file_name.to_owned());
    parts
}

} // verus!
