//! What building an image does, told of the operations themselves.
use crate::mkfs::image;
use crate::mkfs::image::Image;
use crate::mkfs::laws;
use vstd::prelude::*;

verus! {

/// A file that is added is found under its name and reads as it was; every other
/// name leads where it led.
pub proof fn law_added_file(
    m: &mut Image,
    parent: u32,
    name: &[u8],
    data: &[u8],
    u: (),
    n: &Image,
    r: Option<Vec<u8>>,
    other: &[u8],
    a: Option<u32>,
    b: Option<u32>,
)
    requires
        laws::tidy(old(m)@, parent as int),
        laws::name_ok(name@),
        image::looked_up(old(m)@, parent as int, name@) is None,
        data@.len() <= u32::MAX,
        image::added(old(m)@, parent as int, name@, data@) is Some,
        call_ensures(Image::add_file, (m, parent, name, data), u),
        n@ == final(m)@,
        call_ensures(Image::read_file, (n, parent, name), r),
        laws::name_ok(other@),
        other@ != name@,
        call_ensures(Image::lookup, (&*old(m), parent, other), a),
        call_ensures(Image::lookup, (n, parent, other), b),
    ensures
        r is Some,
        (r->0)@ == data@,
        b == a,
        laws::tidy(final(m)@, parent as int),
{
    laws::law_add_then_read(old(m)@, parent as int, name@, data@);
    laws::law_add_keeps_names(old(m)@, parent as int, name@, data@, other@);
}

/// A new image has the directory for programs in its root, nothing in it and
/// nothing beside it.
pub proof fn law_new_image(nfiles: usize, m: Image, r: Option<u32>, name: &[u8], v: Vec<(Vec<u8>, u32)>)
    requires
        nfiles <= image::MAX_FILES,
        call_ensures(Image::new, (nfiles,), m),
        laws::name_ok(name@),
        call_ensures(Image::lookup, (&m, image::ROOT_INO, name), r),
        call_ensures(Image::list, (&m, image::BIN_INO), v),
    ensures
        name@ == image::bin_name() ==> r == Some(image::BIN_INO),
        name@ != image::bin_name() ==> r is None,
        v@.len() == 0,
        laws::tidy(m@, image::ROOT_INO as int) && laws::tidy(m@, image::BIN_INO as int),
{
    laws::law_fresh(nfiles as int);
    assert(image::list_view(v@).len() == v@.len());
}

} // verus!
