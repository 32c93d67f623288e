//! The generation registry: log file names and their ordering.

use vstd::prelude::*;
use vstd::seq_lib::group_to_multiset_ensures;
use crate::codec::{dec_rep, dec_val, digit_run_at, parse_decimal, push_decimal, lemma_dec_rep,
    lemma_digit_run_unique};

verus! {

broadcast use group_to_multiset_ensures;

/// The file name of a generation: its decimal number and the `.log` suffix.
pub open spec fn gen_file_name(g: nat) -> Seq<char> {
    dec_rep(g) + seq!['.', 'l', 'o', 'g']
}

/// Builds the file name of a generation.
pub fn log_file_name(g: u64) -> (r: Vec<char>)
    requires
        g <= usize::MAX,
    ensures
        r@ == gen_file_name(g as nat),
{
    let mut out: Vec<char> = Vec::new();
    push_decimal(&mut out, g as usize);
    out.push('.');
    out.push('l');
    out.push('o');
    out.push('g');
    proof {
        assert(out@ =~= gen_file_name(g as nat));
    }
    out
}

/// Reads a generation number out of a file name of the form `<n>.log`;
/// names of any other shape are nobody's log file.
pub fn parse_gen_name(name: &Vec<char>) -> (r: Option<u64>)
    ensures
        match r {
            Some(g) => name@ == gen_file_name(g as nat),
            None => forall|g: u64| g <= usize::MAX ==> name@ != gen_file_name(g as nat),
        },
{
    let n = name.len();
    match parse_decimal(name, 0) {
        Err(_) => {
            proof {
                assert forall|g: u64| g <= usize::MAX implies name@ != gen_file_name(
                    g as nat,
                ) by {
                    if name@ == gen_file_name(g as nat) {
                        lemma_dec_rep(g as nat);
                        let l = dec_rep(g as nat).len() as int;
                        assert(name@.subrange(0, l) =~= dec_rep(g as nat));
                        assert(name@[l] == '.');
                        assert(digit_run_at(name@, 0, l));
                    }
                }
            }
            None
        },
        Ok((v, end)) => {
            if n >= 4 && end == n - 4 && name[end] == '.' && name[end + 1] == 'l'
                && name[end + 2] == 'o' && name[end + 3] == 'g' {
                proof {
                    assert(name@ =~= dec_rep(v as nat) + seq!['.', 'l', 'o', 'g']);
                }
                Some(v as u64)
            } else {
                proof {
                    assert forall|g: u64| g <= usize::MAX implies name@ != gen_file_name(
                        g as nat,
                    ) by {
                        if name@ == gen_file_name(g as nat) {
                            lemma_dec_rep(g as nat);
                            let l = dec_rep(g as nat).len() as int;
                            assert(name@.subrange(0, l) =~= dec_rep(g as nat));
                            assert(name@[l] == '.');
                            assert(digit_run_at(name@, 0, l));
                            lemma_digit_run_unique(name@, 0, l, end as int);
                            assert(dec_val(name@.subrange(0, l)) == g);
                            assert(name@[l + 1] == 'l');
                            assert(name@[l + 2] == 'o');
                            assert(name@[l + 3] == 'g');
                            assert(name@.len() == l + 4);
                        }
                    }
                }
                None
            }
        },
    }
}

/// Sorts the generation numbers found in a directory into ascending order:
/// the order in which the log files must be replayed.
pub fn sorted_gen_list(gens: Vec<u64>) -> (r: Vec<u64>)
    ensures
        forall|i: int, j: int| 0 <= i < j < r@.len() ==> r@[i] <= r@[j],
        r@.to_multiset() == gens@.to_multiset(),
{
    let mut rem = gens;
    let ghost orig = rem@;
    let mut out: Vec<u64> = Vec::new();
    proof {
        assert(out@.to_multiset().add(rem@.to_multiset()) =~= orig.to_multiset());
    }
    while rem.len() > 0
        invariant
            out@.to_multiset().add(rem@.to_multiset()) == orig.to_multiset(),
            forall|i: int, j: int| 0 <= i < j < out@.len() ==> out@[i] <= out@[j],
            forall|i: int, j: int|
                0 <= i < out@.len() && 0 <= j < rem@.len() ==> out@[i] <= rem@[j],
        decreases rem@.len(),
    {
        // find the least remaining number
        let mut mi: usize = 0;
        let mut i: usize = 1;
        while i < rem.len()
            invariant
                mi < i <= rem@.len(),
                rem@.len() >= 1,
                forall|j: int| 0 <= j < i ==> rem@[mi as int] <= rem@[j],
            decreases rem@.len() - i,
        {
            if rem[i] < rem[mi] {
                mi = i;
            }
            i = i + 1;
        }
        let ghost rem_pre = rem@;
        let ghost out_pre = out@;
        let x = rem.remove(mi);
        out.push(x);
        proof {
            assert(x == rem_pre[mi as int]);
            assert(rem_pre.contains(rem_pre[mi as int]));
            assert(rem@.to_multiset() =~= rem_pre.to_multiset().remove(x));
            assert(out@.to_multiset() =~= out_pre.to_multiset().insert(x));
            assert(out@.to_multiset().add(rem@.to_multiset()) =~= orig.to_multiset());
            assert(forall|j: int| 0 <= j < rem@.len() ==> x <= #[trigger] rem@[j]) by {
                assert(forall|j: int|
                    0 <= j < rem@.len() ==> #[trigger] rem@[j] == (if j < mi {
                        rem_pre[j]
                    } else {
                        rem_pre[j + 1]
                    }));
            }
            assert(forall|i2: int|
                0 <= i2 < out@.len() - 1 ==> #[trigger] out@[i2] == out_pre[i2]);
            assert(forall|i2: int| 0 <= i2 < out_pre.len() ==> out_pre[i2] <= x);
        }
    }
    out
}

} // verus!
