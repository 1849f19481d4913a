//! The fixed byte strings of the surface mini-language and of the
//! generated output, each as a spec sequence with a matching builder.

use vstd::prelude::*;

verus! {

/// The bytes of `"date"`.
pub open spec fn tok_date_recv() -> Seq<u8> {
    seq![100u8, 97u8, 116u8, 101u8]
}

pub fn tok_date_recv_vec() -> (r: Vec<u8>)
    ensures
        r@ == tok_date_recv(),
{
    let r: Vec<u8> = vec![100, 97, 116, 101];
    proof {
        assert(r@ =~= tok_date_recv());
    }
    r
}

/// The bytes of `"path"`.
pub open spec fn tok_path_recv() -> Seq<u8> {
    seq![112u8, 97u8, 116u8, 104u8]
}

pub fn tok_path_recv_vec() -> (r: Vec<u8>)
    ensures
        r@ == tok_path_recv(),
{
    let r: Vec<u8> = vec![112, 97, 116, 104];
    proof {
        assert(r@ =~= tok_path_recv());
    }
    r
}

/// The bytes of `"before"`.
pub open spec fn tok_m_before() -> Seq<u8> {
    seq![98u8, 101u8, 102u8, 111u8, 114u8, 101u8]
}

pub fn tok_m_before_vec() -> (r: Vec<u8>)
    ensures
        r@ == tok_m_before(),
{
    let r: Vec<u8> = vec![98, 101, 102, 111, 114, 101];
    proof {
        assert(r@ =~= tok_m_before());
    }
    r
}

/// The bytes of `"after"`.
pub open spec fn tok_m_after() -> Seq<u8> {
    seq![97u8, 102u8, 116u8, 101u8, 114u8]
}

pub fn tok_m_after_vec() -> (r: Vec<u8>)
    ensures
        r@ == tok_m_after(),
{
    let r: Vec<u8> = vec![97, 102, 116, 101, 114];
    proof {
        assert(r@ =~= tok_m_after());
    }
    r
}

/// The bytes of `"since"`.
pub open spec fn tok_m_since() -> Seq<u8> {
    seq![115u8, 105u8, 110u8, 99u8, 101u8]
}

pub fn tok_m_since_vec() -> (r: Vec<u8>)
    ensures
        r@ == tok_m_since(),
{
    let r: Vec<u8> = vec![115, 105, 110, 99, 101];
    proof {
        assert(r@ =~= tok_m_since());
    }
    r
}

/// The bytes of `"on"`.
pub open spec fn tok_m_on() -> Seq<u8> {
    seq![111u8, 110u8]
}

pub fn tok_m_on_vec() -> (r: Vec<u8>)
    ensures
        r@ == tok_m_on(),
{
    let r: Vec<u8> = vec![111, 110];
    proof {
        assert(r@ =~= tok_m_on());
    }
    r
}

/// The bytes of `"between"`.
pub open spec fn tok_m_between() -> Seq<u8> {
    seq![98u8, 101u8, 116u8, 119u8, 101u8, 101u8, 110u8]
}

pub fn tok_m_between_vec() -> (r: Vec<u8>)
    ensures
        r@ == tok_m_between(),
{
    let r: Vec<u8> = vec![98, 101, 116, 119, 101, 101, 110];
    proof {
        assert(r@ =~= tok_m_between());
    }
    r
}

/// The bytes of `"matches"`.
pub open spec fn tok_m_matches() -> Seq<u8> {
    seq![109u8, 97u8, 116u8, 99u8, 104u8, 101u8, 115u8]
}

pub fn tok_m_matches_vec() -> (r: Vec<u8>)
    ensures
        r@ == tok_m_matches(),
{
    let r: Vec<u8> = vec![109, 97, 116, 99, 104, 101, 115];
    proof {
        assert(r@ =~= tok_m_matches());
    }
    r
}

/// The bytes of `"matches_ignore_case"`.
pub open spec fn tok_m_matches_nc() -> Seq<u8> {
    seq![109u8, 97u8, 116u8, 99u8, 104u8, 101u8, 115u8, 95u8, 105u8, 103u8, 110u8, 111u8, 114u8, 101u8, 95u8, 99u8, 97u8, 115u8, 101u8]
}

pub fn tok_m_matches_nc_vec() -> (r: Vec<u8>)
    ensures
        r@ == tok_m_matches_nc(),
{
    let r: Vec<u8> = vec![109, 97, 116, 99, 104, 101, 115, 95, 105, 103, 110, 111, 114, 101, 95, 99, 97, 115, 101];
    proof {
        assert(r@ =~= tok_m_matches_nc());
    }
    r
}

/// The bytes of `"and"`.
pub open spec fn tok_w_and() -> Seq<u8> {
    seq![97u8, 110u8, 100u8]
}

pub fn tok_w_and_vec() -> (r: Vec<u8>)
    ensures
        r@ == tok_w_and(),
{
    let r: Vec<u8> = vec![97, 110, 100];
    proof {
        assert(r@ =~= tok_w_and());
    }
    r
}

/// The bytes of `"or"`.
pub open spec fn tok_w_or() -> Seq<u8> {
    seq![111u8, 114u8]
}

pub fn tok_w_or_vec() -> (r: Vec<u8>)
    ensures
        r@ == tok_w_or(),
{
    let r: Vec<u8> = vec![111, 114];
    proof {
        assert(r@ =~= tok_w_or());
    }
    r
}

/// The bytes of `"not"`.
pub open spec fn tok_w_not() -> Seq<u8> {
    seq![110u8, 111u8, 116u8]
}

pub fn tok_w_not_vec() -> (r: Vec<u8>)
    ensures
        r@ == tok_w_not(),
{
    let r: Vec<u8> = vec![110, 111, 116];
    proof {
        assert(r@ =~= tok_w_not());
    }
    r
}

/// The bytes of `"&&"`.
pub open spec fn tok_op_and() -> Seq<u8> {
    seq![38u8, 38u8]
}

pub fn tok_op_and_vec() -> (r: Vec<u8>)
    ensures
        r@ == tok_op_and(),
{
    let r: Vec<u8> = vec![38, 38];
    proof {
        assert(r@ =~= tok_op_and());
    }
    r
}

/// The bytes of `"||"`.
pub open spec fn tok_op_or() -> Seq<u8> {
    seq![124u8, 124u8]
}

pub fn tok_op_or_vec() -> (r: Vec<u8>)
    ensures
        r@ == tok_op_or(),
{
    let r: Vec<u8> = vec![124, 124];
    proof {
        assert(r@ =~= tok_op_or());
    }
    r
}

/// The bytes of `"fn "`.
pub open spec fn tok_fn_kw() -> Seq<u8> {
    seq![102u8, 110u8, 32u8]
}

pub fn tok_fn_kw_vec() -> (r: Vec<u8>)
    ensures
        r@ == tok_fn_kw(),
{
    let r: Vec<u8> = vec![102, 110, 32];
    proof {
        assert(r@ =~= tok_fn_kw());
    }
    r
}

/// The bytes of `") {\n\t"`.
pub open spec fn tok_body_open() -> Seq<u8> {
    seq![41u8, 32u8, 123u8, 10u8, 9u8]
}

pub fn tok_body_open_vec() -> (r: Vec<u8>)
    ensures
        r@ == tok_body_open(),
{
    let r: Vec<u8> = vec![41, 32, 123, 10, 9];
    proof {
        assert(r@ =~= tok_body_open());
    }
    r
}

/// The bytes of `"\n}\n"`.
pub open spec fn tok_body_close() -> Seq<u8> {
    seq![10u8, 125u8, 10u8]
}

pub fn tok_body_close_vec() -> (r: Vec<u8>)
    ensures
        r@ == tok_body_close(),
{
    let r: Vec<u8> = vec![10, 125, 10];
    proof {
        assert(r@ =~= tok_body_close());
    }
    r
}

/// The bytes of `"path.matches(\""`.
pub open spec fn tok_q_matches() -> Seq<u8> {
    seq![112u8, 97u8, 116u8, 104u8, 46u8, 109u8, 97u8, 116u8, 99u8, 104u8, 101u8, 115u8, 40u8, 34u8]
}

pub fn tok_q_matches_vec() -> (r: Vec<u8>)
    ensures
        r@ == tok_q_matches(),
{
    let r: Vec<u8> = vec![112, 97, 116, 104, 46, 109, 97, 116, 99, 104, 101, 115, 40, 34];
    proof {
        assert(r@ =~= tok_q_matches());
    }
    r
}

/// The bytes of `"path.matches_ignore_case(\""`.
pub open spec fn tok_q_matches_nc() -> Seq<u8> {
    seq![112u8, 97u8, 116u8, 104u8, 46u8, 109u8, 97u8, 116u8, 99u8, 104u8, 101u8, 115u8, 95u8, 105u8, 103u8, 110u8, 111u8, 114u8, 101u8, 95u8, 99u8, 97u8, 115u8, 101u8, 40u8, 34u8]
}

pub fn tok_q_matches_nc_vec() -> (r: Vec<u8>)
    ensures
        r@ == tok_q_matches_nc(),
{
    let r: Vec<u8> = vec![112, 97, 116, 104, 46, 109, 97, 116, 99, 104, 101, 115, 95, 105, 103, 110, 111, 114, 101, 95, 99, 97, 115, 101, 40, 34];
    proof {
        assert(r@ =~= tok_q_matches_nc());
    }
    r
}

/// The bytes of `"\")"`.
pub open spec fn tok_q_close() -> Seq<u8> {
    seq![34u8, 41u8]
}

pub fn tok_q_close_vec() -> (r: Vec<u8>)
    ensures
        r@ == tok_q_close(),
{
    let r: Vec<u8> = vec![34, 41];
    proof {
        assert(r@ =~= tok_q_close());
    }
    r
}

/// The bytes of `" && path.size "`.
pub open spec fn tok_q_size() -> Seq<u8> {
    seq![32u8, 38u8, 38u8, 32u8, 112u8, 97u8, 116u8, 104u8, 46u8, 115u8, 105u8, 122u8, 101u8, 32u8]
}

pub fn tok_q_size_vec() -> (r: Vec<u8>)
    ensures
        r@ == tok_q_size(),
{
    let r: Vec<u8> = vec![32, 38, 38, 32, 112, 97, 116, 104, 46, 115, 105, 122, 101, 32];
    proof {
        assert(r@ =~= tok_q_size());
    }
    r
}

/// The bytes of `" && date."`.
pub open spec fn tok_q_date_pre() -> Seq<u8> {
    seq![32u8, 38u8, 38u8, 32u8, 100u8, 97u8, 116u8, 101u8, 46u8]
}

pub fn tok_q_date_pre_vec() -> (r: Vec<u8>)
    ensures
        r@ == tok_q_date_pre(),
{
    let r: Vec<u8> = vec![32, 38, 38, 32, 100, 97, 116, 101, 46];
    proof {
        assert(r@ =~= tok_q_date_pre());
    }
    r
}

/// The bytes of `"(\""`.
pub open spec fn tok_q_date_open() -> Seq<u8> {
    seq![40u8, 34u8]
}

pub fn tok_q_date_open_vec() -> (r: Vec<u8>)
    ensures
        r@ == tok_q_date_open(),
{
    let r: Vec<u8> = vec![40, 34];
    proof {
        assert(r@ =~= tok_q_date_open());
    }
    r
}

/// The bytes of `"*/"`.
pub open spec fn tok_star_slash() -> Seq<u8> {
    seq![42u8, 47u8]
}

pub fn tok_star_slash_vec() -> (r: Vec<u8>)
    ensures
        r@ == tok_star_slash(),
{
    let r: Vec<u8> = vec![42, 47];
    proof {
        assert(r@ =~= tok_star_slash());
    }
    r
}

/// The bytes of `"return "`.
pub open spec fn tok_c_return() -> Seq<u8> {
    seq![114u8, 101u8, 116u8, 117u8, 114u8, 110u8, 32u8]
}

pub fn tok_c_return_vec() -> (r: Vec<u8>)
    ensures
        r@ == tok_c_return(),
{
    let r: Vec<u8> = vec![114, 101, 116, 117, 114, 110, 32];
    proof {
        assert(r@ =~= tok_c_return());
    }
    r
}

/// The bytes of `" + "`.
pub open spec fn tok_c_plus() -> Seq<u8> {
    seq![32u8, 43u8, 32u8]
}

pub fn tok_c_plus_vec() -> (r: Vec<u8>)
    ensures
        r@ == tok_c_plus(),
{
    let r: Vec<u8> = vec![32, 43, 32];
    proof {
        assert(r@ =~= tok_c_plus());
    }
    r
}

/// The bytes of `"fn cmd(path,date) { "`.
pub open spec fn tok_c_fn_open() -> Seq<u8> {
    seq![102u8, 110u8, 32u8, 99u8, 109u8, 100u8, 40u8, 112u8, 97u8, 116u8, 104u8, 44u8, 100u8, 97u8, 116u8, 101u8, 41u8, 32u8, 123u8, 32u8]
}

pub fn tok_c_fn_open_vec() -> (r: Vec<u8>)
    ensures
        r@ == tok_c_fn_open(),
{
    let r: Vec<u8> = vec![102, 110, 32, 99, 109, 100, 40, 112, 97, 116, 104, 44, 100, 97, 116, 101, 41, 32, 123, 32];
    proof {
        assert(r@ =~= tok_c_fn_open());
    }
    r
}

/// The bytes of `" }"`.
pub open spec fn tok_c_fn_close() -> Seq<u8> {
    seq![32u8, 125u8]
}

pub fn tok_c_fn_close_vec() -> (r: Vec<u8>)
    ensures
        r@ == tok_c_fn_close(),
{
    let r: Vec<u8> = vec![32, 125];
    proof {
        assert(r@ =~= tok_c_fn_close());
    }
    r
}

/// The bytes of `" %(path.path)"`.
pub open spec fn tok_c_default_sub() -> Seq<u8> {
    seq![32u8, 37u8, 40u8, 112u8, 97u8, 116u8, 104u8, 46u8, 112u8, 97u8, 116u8, 104u8, 41u8]
}

pub fn tok_c_default_sub_vec() -> (r: Vec<u8>)
    ensures
        r@ == tok_c_default_sub(),
{
    let r: Vec<u8> = vec![32, 37, 40, 112, 97, 116, 104, 46, 112, 97, 116, 104, 41];
    proof {
        assert(r@ =~= tok_c_default_sub());
    }
    r
}

/// The bytes of `"%("`.
pub open spec fn tok_c_pct_open() -> Seq<u8> {
    seq![37u8, 40u8]
}

pub fn tok_c_pct_open_vec() -> (r: Vec<u8>)
    ensures
        r@ == tok_c_pct_open(),
{
    let r: Vec<u8> = vec![37, 40];
    proof {
        assert(r@ =~= tok_c_pct_open());
    }
    r
}

} // verus!
