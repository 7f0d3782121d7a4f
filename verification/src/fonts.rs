//! The bundled Archivo faces and their license metadata.

use vstd::prelude::*;

verus! {

/// Name of the bundled font license.
pub const LICENSE: &'static str = "OFL-1.1";

/// File names of the bundled Archivo faces, in pack order.
pub open spec fn document_faces() -> Seq<Seq<char>> {
    seq![
        "Archivo-Bold.ttf"@,
        "Archivo-Italic.ttf"@,
        "Archivo-Medium.ttf"@,
        "Archivo-Regular.ttf"@,
    ]
}

/// The four bundled Archivo faces, by file name, in pack order.
pub fn documents() -> (faces: Vec<&'static str>)
    ensures
        faces@.len() == 4,
        forall|i: int| 0 <= i < 4 ==> (#[trigger] faces@[i])@ == document_faces()[i],
{
    let faces = vec![
        "Archivo-Bold.ttf",
        "Archivo-Italic.ttf",
        "Archivo-Medium.ttf",
        "Archivo-Regular.ttf",
    ];
    faces
}

} // verus!
