//! The column-tracking tab expander: rewrites each tab as a configured
//! number of spaces, counting how many tabs have been seen on the current
//! line so that the width can depend on the tab's position.

use std::collections::HashMap;
use vstd::prelude::*;

use crate::util::{NEWLINE, TAB};

verus! {

broadcast use vstd::std_specs::hash::group_hash_axioms;

/// The space byte, written in place of tabs.
pub const SPACE: u8 = 32;

/// How many spaces replace a tab: the same number everywhere, or a
/// per-position table with a default for positions it does not list. A
/// position is the count of tabs already seen on the current line.
pub enum TabConf {
    TabConstant(usize),
    TabMap(usize, HashMap<usize, usize>),
}

/// The number of spaces that replace a tab at tab position `pos`.
pub open spec fn tab_spaces(tab_config: TabConf, pos: usize) -> usize {
    match tab_config {
        TabConf::TabConstant(spcs) => spcs,
        TabConf::TabMap(tab_def, tmap) => if tmap@.contains_key(pos) {
            tmap@[pos]
        } else {
            tab_def
        },
    }
}

/// Looks up the space count for a tab at tab position `pos`.
pub fn tab_pos_to_space(tab_config: &TabConf, pos: usize) -> (r: usize)
    ensures
        r == tab_spaces(*tab_config, pos),
{
    match tab_config {
        TabConf::TabConstant(spcs) => *spcs,
        TabConf::TabMap(tab_def, tmap) => match tmap.get(&pos) {
            Some(spcs) => *spcs,
            None => *tab_def,
        },
    }
}

/// The tab expansion of `s` starting at tab position `pos`: each tab
/// becomes its configured run of spaces and advances the position, a
/// newline resets the position, every other byte is copied. Returns the
/// expanded bytes and the tab position after `s`.
pub open spec fn detab_from(tab_config: TabConf, s: Seq<u8>, pos: nat) -> (Seq<u8>, nat)
    decreases s.len(),
{
    if s.len() == 0 {
        (Seq::empty(), pos)
    } else {
        let b = s[0];
        if b == TAB {
            let rest = detab_from(tab_config, s.subrange(1, s.len() as int), pos + 1);
            (
                Seq::new(tab_spaces(tab_config, pos as usize) as nat, |k: int| SPACE) + rest.0,
                rest.1,
            )
        } else if b == NEWLINE {
            let rest = detab_from(tab_config, s.subrange(1, s.len() as int), 0);
            (seq![b] + rest.0, rest.1)
        } else {
            let rest = detab_from(tab_config, s.subrange(1, s.len() as int), pos);
            (seq![b] + rest.0, rest.1)
        }
    }
}

/// Appends `n` spaces to `out`.
fn push_spaces(out: &mut Vec<u8>, n: usize)
    ensures
        final(out)@ == old(out)@ + Seq::new(n as nat, |k: int| SPACE),
{
    let mut k: usize = 0;
    while k < n
        invariant
            k <= n,
            out@ == old(out)@ + Seq::new(k as nat, |j: int| SPACE),
        decreases n - k,
    {
        out.push(SPACE);
        k = k + 1;
        proof {
            assert(Seq::new(k as nat, |j: int| SPACE) =~= Seq::new((k - 1) as nat, |j: int| SPACE)
                + seq![SPACE]);
            assert(old(out)@ + Seq::new(k as nat, |j: int| SPACE) =~= (old(out)@ + Seq::new(
                (k - 1) as nat,
                |j: int| SPACE,
            )) + seq![SPACE]);
        }
    }
    proof {
        assert(old(out)@ + Seq::new(0, |j: int| SPACE) =~= old(out)@);
    }
}

/// Expands one buffer, appending the expanded bytes to `out`; takes the
/// tab position the buffer starts at and returns the position after it, so
/// buffers can be streamed.
pub fn detab_chunk(tab_config: &TabConf, chunk: &Vec<u8>, tab_pos: usize, out: &mut Vec<u8>) -> (
    new_pos: usize)
    requires
        tab_pos + chunk@.len() <= usize::MAX,
    ensures
        final(out)@ == old(out)@ + detab_from(*tab_config, chunk@, tab_pos as nat).0,
        new_pos as nat == detab_from(*tab_config, chunk@, tab_pos as nat).1,
{
    let ghost out0 = out@;
    let ghost whole = detab_from(*tab_config, chunk@, tab_pos as nat);
    let mut pos = tab_pos;
    let mut i: usize = 0;
    let ghost mut emitted: Seq<u8> = Seq::empty();
    proof {
        assert(chunk@.subrange(0, chunk@.len() as int) =~= chunk@);
        assert(out0 + emitted =~= out0);
        assert(emitted + whole.0 =~= whole.0);
    }
    while i < chunk.len()
        invariant
            i <= chunk.len(),
            pos + (chunk@.len() - i) <= usize::MAX,
            out@ == out0 + emitted,
            whole.0 == emitted + detab_from(
                *tab_config,
                chunk@.subrange(i as int, chunk@.len() as int),
                pos as nat,
            ).0,
            whole.1 == detab_from(
                *tab_config,
                chunk@.subrange(i as int, chunk@.len() as int),
                pos as nat,
            ).1,
        decreases chunk.len() - i,
    {
        let ghost tail = chunk@.subrange(i as int, chunk@.len() as int);
        let ghost pos0 = pos as nat;
        let b = chunk[i];
        proof {
            assert(tail[0] == b);
            assert(tail.subrange(1, tail.len() as int) =~= chunk@.subrange(
                i as int + 1,
                chunk@.len() as int,
            ));
        }
        if b == TAB {
            let spc_count = tab_pos_to_space(tab_config, pos);
            push_spaces(out, spc_count);
            pos = pos + 1;
            proof {
                let rest = detab_from(*tab_config, tail.subrange(1, tail.len() as int), pos0 + 1);
                let spaces = Seq::new(tab_spaces(*tab_config, pos0 as usize) as nat, |k: int| SPACE);
                assert(detab_from(*tab_config, tail, pos0).0 == spaces + rest.0);
                assert(emitted + (spaces + rest.0) =~= (emitted + spaces) + rest.0);
                emitted = emitted + spaces;
            }
        } else if b == NEWLINE {
            out.push(b);
            pos = 0;
            proof {
                let rest = detab_from(*tab_config, tail.subrange(1, tail.len() as int), 0);
                assert(detab_from(*tab_config, tail, pos0).0 == seq![b] + rest.0);
                assert(emitted + (seq![b] + rest.0) =~= (emitted + seq![b]) + rest.0);
                assert(out@ =~= out0 + (emitted + seq![b]));
                emitted = emitted + seq![b];
            }
        } else {
            out.push(b);
            proof {
                let rest = detab_from(*tab_config, tail.subrange(1, tail.len() as int), pos0);
                assert(detab_from(*tab_config, tail, pos0).0 == seq![b] + rest.0);
                assert(emitted + (seq![b] + rest.0) =~= (emitted + seq![b]) + rest.0);
                assert(out@ =~= out0 + (emitted + seq![b]));
                emitted = emitted + seq![b];
            }
        }
        i = i + 1;
    }
    proof {
        assert(chunk@.subrange(i as int, chunk@.len() as int) =~= Seq::<u8>::empty());
        assert(emitted + Seq::<u8>::empty() =~= emitted);
    }
    pos
}

/// Expands a whole input taken as one buffer, starting at the beginning of
/// a line.
pub fn detab(tab_config: &TabConf, input: &Vec<u8>) -> (out: Vec<u8>)
    requires
        input@.len() <= usize::MAX,
    ensures
        out@ == detab_from(*tab_config, input@, 0).0,
{
    let mut out: Vec<u8> = Vec::new();
    detab_chunk(tab_config, input, 0, &mut out);
    proof {
        assert(Seq::<u8>::empty() + detab_from(*tab_config, input@, 0).0 =~= detab_from(
            *tab_config,
            input@,
            0,
        ).0);
    }
    out
}

} // verus!
