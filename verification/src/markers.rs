//! The literal byte strings the engine scans for, each as a spec sequence
//! and an executable builder. They are spelled as ASCII codes so the spec
//! side and the executable side are visibly the same bytes.

use vstd::prelude::*;

verus! {

/// `#include` — the marker of an inclusion directive line.
pub open spec fn directive_marker() -> Seq<u8> {
    seq![35u8, 105, 110, 99, 108, 117, 100, 101]
}

/// `#include` as bytes.
pub fn directive_marker_vec() -> (v: Vec<u8>)
    ensures
        v@ == directive_marker(),
{
    let v: Vec<u8> = vec![35, 105, 110, 99, 108, 117, 100, 101];
    proof {
        assert(v@ =~= directive_marker());
    }
    v
}

/// `.generated.` — lines naming a generated header are skipped.
pub open spec fn generated_marker() -> Seq<u8> {
    seq![46u8, 103, 101, 110, 101, 114, 97, 116, 101, 100, 46]
}

/// `.generated.` as bytes.
pub fn generated_marker_vec() -> (v: Vec<u8>)
    ensures
        v@ == generated_marker(),
{
    let v: Vec<u8> = vec![46, 103, 101, 110, 101, 114, 97, 116, 101, 100, 46];
    proof {
        assert(v@ =~= generated_marker());
    }
    v
}

/// `.gen.` — the short form of the generated-header marker.
pub open spec fn gen_marker() -> Seq<u8> {
    seq![46u8, 103, 101, 110, 46]
}

/// `.gen.` as bytes.
pub fn gen_marker_vec() -> (v: Vec<u8>)
    ensures
        v@ == gen_marker(),
{
    let v: Vec<u8> = vec![46, 103, 101, 110, 46];
    proof {
        assert(v@ =~= gen_marker());
    }
    v
}

/// `h` — the plain header extension.
pub open spec fn ext_h() -> Seq<u8> {
    seq![104u8]
}

/// `h` as bytes.
pub fn ext_h_vec() -> (v: Vec<u8>)
    ensures
        v@ == ext_h(),
{
    let v: Vec<u8> = vec![104];
    proof {
        assert(v@ =~= ext_h());
    }
    v
}

/// `hpp` — the C++ header extension.
pub open spec fn ext_hpp() -> Seq<u8> {
    seq![104u8, 112, 112]
}

/// `hpp` as bytes.
pub fn ext_hpp_vec() -> (v: Vec<u8>)
    ensures
        v@ == ext_hpp(),
{
    let v: Vec<u8> = vec![104, 112, 112];
    proof {
        assert(v@ =~= ext_hpp());
    }
    v
}

/// `c` — the plain source extension.
pub open spec fn ext_c() -> Seq<u8> {
    seq![99u8]
}

/// `c` as bytes.
pub fn ext_c_vec() -> (v: Vec<u8>)
    ensures
        v@ == ext_c(),
{
    let v: Vec<u8> = vec![99];
    proof {
        assert(v@ =~= ext_c());
    }
    v
}

/// `cpp` — the C++ source extension.
pub open spec fn ext_cpp() -> Seq<u8> {
    seq![99u8, 112, 112]
}

/// `cpp` as bytes.
pub fn ext_cpp_vec() -> (v: Vec<u8>)
    ensures
        v@ == ext_cpp(),
{
    let v: Vec<u8> = vec![99, 112, 112];
    proof {
        assert(v@ =~= ext_cpp());
    }
    v
}

/// `inl` — the inline-definition extension.
pub open spec fn ext_inl() -> Seq<u8> {
    seq![105u8, 110, 108]
}

/// `inl` as bytes.
pub fn ext_inl_vec() -> (v: Vec<u8>)
    ensures
        v@ == ext_inl(),
{
    let v: Vec<u8> = vec![105, 110, 108];
    proof {
        assert(v@ =~= ext_inl());
    }
    v
}

/// `include("` — opens a reference to another descriptor file.
pub open spec fn ref_open_marker() -> Seq<u8> {
    seq![105u8, 110, 99, 108, 117, 100, 101, 40, 34]
}

/// `include("` as bytes.
pub fn ref_open_marker_vec() -> (v: Vec<u8>)
    ensures
        v@ == ref_open_marker(),
{
    let v: Vec<u8> = vec![105, 110, 99, 108, 117, 100, 101, 40, 34];
    proof {
        assert(v@ =~= ref_open_marker());
    }
    v
}

/// `")` — closes a reference to another descriptor file.
pub open spec fn ref_close_marker() -> Seq<u8> {
    seq![34u8, 41]
}

/// `")` as bytes.
pub fn ref_close_marker_vec() -> (v: Vec<u8>)
    ensures
        v@ == ref_close_marker(),
{
    let v: Vec<u8> = vec![34, 41];
    proof {
        assert(v@ =~= ref_close_marker());
    }
    v
}

/// `includes` — referenced descriptor paths holding this word declare modules.
pub open spec fn includes_marker() -> Seq<u8> {
    seq![105u8, 110, 99, 108, 117, 100, 101, 115]
}

/// `includes` as bytes.
pub fn includes_marker_vec() -> (v: Vec<u8>)
    ensures
        v@ == includes_marker(),
{
    let v: Vec<u8> = vec![105, 110, 99, 108, 117, 100, 101, 115];
    proof {
        assert(v@ =~= includes_marker());
    }
    v
}

/// `Intermediate` — candidate directories holding this word are build noise.
pub open spec fn intermediate_marker() -> Seq<u8> {
    seq![73u8, 110, 116, 101, 114, 109, 101, 100, 105, 97, 116, 101]
}

/// `Intermediate` as bytes.
pub fn intermediate_marker_vec() -> (v: Vec<u8>)
    ensures
        v@ == intermediate_marker(),
{
    let v: Vec<u8> = vec![73, 110, 116, 101, 114, 109, 101, 100, 105, 97, 116, 101];
    proof {
        assert(v@ =~= intermediate_marker());
    }
    v
}

/// `Engine/` — the anchor segment a module name starts at.
pub open spec fn anchor_marker() -> Seq<u8> {
    seq![69u8, 110, 103, 105, 110, 101, 47]
}

/// `Engine/` as bytes.
pub fn anchor_marker_vec() -> (v: Vec<u8>)
    ensures
        v@ == anchor_marker(),
{
    let v: Vec<u8> = vec![69, 110, 103, 105, 110, 101, 47];
    proof {
        assert(v@ =~= anchor_marker());
    }
    v
}

/// `/Public` — the public half of a module's header split.
pub open spec fn public_suffix() -> Seq<u8> {
    seq![47u8, 80, 117, 98, 108, 105, 99]
}

/// `/Public` as bytes.
pub fn public_suffix_vec() -> (v: Vec<u8>)
    ensures
        v@ == public_suffix(),
{
    let v: Vec<u8> = vec![47, 80, 117, 98, 108, 105, 99];
    proof {
        assert(v@ =~= public_suffix());
    }
    v
}

/// `/Private` — the private half of a module's header split.
pub open spec fn private_suffix() -> Seq<u8> {
    seq![47u8, 80, 114, 105, 118, 97, 116, 101]
}

/// `/Private` as bytes.
pub fn private_suffix_vec() -> (v: Vec<u8>)
    ensures
        v@ == private_suffix(),
{
    let v: Vec<u8> = vec![47, 80, 114, 105, 118, 97, 116, 101];
    proof {
        assert(v@ =~= private_suffix());
    }
    v
}

/// `CMakeLists.txt` — the root descriptor file's name under the project root.
pub open spec fn descriptor_name() -> Seq<u8> {
    seq![67u8, 77, 97, 107, 101, 76, 105, 115, 116, 115, 46, 116, 120, 116]
}

/// `CMakeLists.txt` as bytes.
pub fn descriptor_name_vec() -> (v: Vec<u8>)
    ensures
        v@ == descriptor_name(),
{
    let v: Vec<u8> = vec![67, 77, 97, 107, 101, 76, 105, 115, 116, 115, 46, 116, 120, 116];
    proof {
        assert(v@ =~= descriptor_name());
    }
    v
}

} // verus!
