//! The grammar of `grammar.rs`, seen from a parser that keeps the open arrays
//! and objects on an explicit stack instead of recursing.
//!
//! A stack of frames is a continuation: [`Input::need_value`] is the result of
//! the whole parse when a value is expected at some position, and
//! [`Input::resume`] when a value has just been read. The lemmas of this file
//! show that these agree with the recursive grammar.
use vstd::prelude::*;
use crate::value::JValue;
use super::Context;
use super::grammar::{Input, PErr, SEntry, ArrCont, ObjCont, Frag, placeholder};

verus! {

/// An open array or object, waiting for an item or an entry value.
pub enum SFrame {
    /// Array opened at `start`, with items `acc` so far; its code-map entry
    /// is at `cmi`.
    Array { start: int, acc: Seq<JValue>, cmi: int },
    /// Object opened at `start`, with entries `acc` so far; its code-map
    /// entry is at `cmi`. The entry being read has key `key` (from `ks` to
    /// `ke`) and its code-map entry is at `ecmi`.
    Object {
        start: int,
        acc: Seq<(Seq<char>, JValue)>,
        cmi: int,
        key: Seq<char>,
        ks: int,
        ke: int,
        ecmi: int,
    },
}

/// The context in which the next value is read.
pub open spec fn frames_context(stack: Seq<SFrame>) -> Context {
    if stack.len() == 0 {
        Context::Root
    } else {
        match stack.last() {
            SFrame::Array { .. } => Context::Array,
            SFrame::Object { .. } => Context::ObjectValue,
        }
    }
}

impl Input {
    pub proof fn lemma_items_progress(self, start: int, k: int, acc: Seq<JValue>, cm: Seq<SEntry>)
        requires
            0 <= k,
        ensures
            self.items(start, k, acc, cm) matches Ok((_, n, _)) ==> k < n <= self.len(),
        decreases self.len() - k,
    {
        match self.value(k, Context::Array) {
            Err(_) => {},
            Ok((v, e, cmv)) => if e <= k || e > self.len() {
            } else {
                self.lemma_array_continue_progress(e);
                match self.array_continue(e) {
                    Ok(ArrCont::Item(n)) => self.lemma_items_progress(start, n, acc.push(v), cm + cmv),
                    _ => {},
                }
            },
        }
    }

    pub proof fn lemma_members_progress(
        self,
        start: int,
        key: Seq<char>,
        ks: int,
        ke: int,
        kv: int,
        acc: Seq<(Seq<char>, JValue)>,
        cm: Seq<SEntry>,
    )
        requires
            0 <= kv,
        ensures
            self.members(start, key, ks, ke, kv, acc, cm) matches Ok((_, n, _)) ==> kv < n
                <= self.len(),
        decreases self.len() - kv,
    {
        match self.value(kv, Context::ObjectValue) {
            Err(_) => {},
            Ok((v, e, cmv)) => if e <= kv || e > self.len() {
            } else {
                let acc2 = acc.push((key, v));
                let cm2 = cm + seq![
                    SEntry { start: ks, end: e, volume: 2 + cmv.len() as int },
                    SEntry { start: ks, end: ke, volume: 1 },
                ] + cmv;
                self.lemma_object_continue_progress(e);
                match self.object_continue(e) {
                    Ok(ObjCont::Entry(key2, ks2, ke2, next)) => self.lemma_members_progress(
                        start,
                        key2,
                        ks2,
                        ke2,
                        next,
                        acc2,
                        cm2,
                    ),
                    _ => {},
                }
            },
        }
    }

    pub proof fn lemma_value_progress(self, i: int, ctx: Context)
        requires
            0 <= i,
        ensures
            self.value(i, ctx) matches Ok((_, e, _)) ==> i < e <= self.len(),
    {
        self.lemma_fragment_progress(i, ctx);
        match self.fragment(i, ctx) {
            Ok(Frag::BeginArray(start, next)) => self.lemma_items_progress(
                start,
                next,
                Seq::empty(),
                Seq::empty(),
            ),
            Ok(Frag::BeginObject(start, key, ks, ke, next)) => self.lemma_members_progress(
                start,
                key,
                ks,
                ke,
                next,
                Seq::empty(),
                Seq::empty(),
            ),
            _ => {},
        }
    }

    /// Result of the whole parse when a value is expected at `k`, with the
    /// open frames `stack` and the code-map `cm` built so far.
    pub open spec fn need_value(self, stack: Seq<SFrame>, k: int, cm: Seq<SEntry>) -> Result<
        (JValue, Seq<SEntry>),
        PErr,
    >
        decreases self.len() - k, 3int,
    {
        if k < 0 {
            Err(PErr::Stream(k))
        } else {
            match self.value(k, frames_context(stack)) {
                Err(x) => Err(x),
                Ok((v, e, cmv)) => {
                    proof {
                        self.lemma_value_progress(k, frames_context(stack));
                    }
                    self.resume(stack, v, e, cm + cmv)
                },
            }
        }
    }

    /// Result of the whole parse when the value `v` has been read up to `e`.
    pub open spec fn resume(self, stack: Seq<SFrame>, v: JValue, e: int, cm: Seq<SEntry>) -> Result<
        (JValue, Seq<SEntry>),
        PErr,
    >
        decreases self.len() - e, 2int,
    {
        if stack.len() == 0 {
            self.finish(v, e, cm)
        } else {
            match stack.last() {
                SFrame::Array { start, acc, cmi } => self.continue_frame(
                    stack.drop_last().push(SFrame::Array { start, acc: acc.push(v), cmi }),
                    e,
                    cm,
                ),
                SFrame::Object { start, acc, cmi, key, ks, ke, ecmi } => self.continue_frame(
                    stack.drop_last().push(
                        SFrame::Object { start, acc: acc.push((key, v)), cmi, key, ks, ke, ecmi },
                    ),
                    e,
                    cm.update(ecmi, SEntry { start: ks, end: e, volume: cm.len() - ecmi }),
                ),
            }
        }
    }

    /// Result of the whole parse when an item (array) or entry (object) of
    /// the top frame has been read up to `e`.
    pub open spec fn continue_frame(self, stack: Seq<SFrame>, e: int, cm: Seq<SEntry>) -> Result<
        (JValue, Seq<SEntry>),
        PErr,
    >
        decreases self.len() - e, 1int,
    {
        if stack.len() == 0 || e < 0 {
            Err(PErr::Stream(e))
        } else {
            match stack.last() {
                SFrame::Array { start, acc, cmi } => match self.array_continue(e) {
                    Err(x) => Err(x),
                    Ok(ArrCont::Item(n)) => {
                        proof {
                            self.lemma_array_continue_progress(e);
                        }
                        self.need_value(stack, n, cm)
                    },
                    Ok(ArrCont::End(n)) => {
                        proof {
                            self.lemma_array_continue_progress(e);
                        }
                        self.resume(
                            stack.drop_last(),
                            JValue::Array(acc),
                            n,
                            cm.update(cmi, SEntry { start, end: n, volume: cm.len() - cmi }),
                        )
                    },
                },
                SFrame::Object { start, acc, cmi, key, ks, ke, ecmi } => match self.object_continue(
                    e,
                ) {
                    Err(x) => Err(x),
                    Ok(ObjCont::Entry(key2, ks2, ke2, next)) => {
                        proof {
                            self.lemma_object_continue_progress(e);
                        }
                        self.need_value(
                            stack.drop_last().push(
                                SFrame::Object {
                                    start,
                                    acc,
                                    cmi,
                                    key: key2,
                                    ks: ks2,
                                    ke: ke2,
                                    ecmi: cm.len() as int,
                                },
                            ),
                            next,
                            cm + seq![placeholder(ks2), SEntry { start: ks2, end: ke2, volume: 1 }],
                        )
                    },
                    Ok(ObjCont::End(n)) => {
                        proof {
                            self.lemma_object_continue_progress(e);
                        }
                        self.resume(
                            stack.drop_last(),
                            JValue::Object(acc),
                            n,
                            cm.update(cmi, SEntry { start, end: n, volume: cm.len() - cmi }),
                        )
                    },
                },
            }
        }
    }

    /// Reading the items of an array through the stack agrees with the
    /// grammar.
    pub proof fn lemma_items_stack(
        self,
        stack: Seq<SFrame>,
        start: int,
        k: int,
        acc: Seq<JValue>,
        pre: Seq<SEntry>,
        cmx: Seq<SEntry>,
    )
        requires
            0 <= k,
        ensures
            self.need_value(
                stack.push(SFrame::Array { start, acc, cmi: pre.len() as int }),
                k,
                pre + seq![placeholder(start)] + cmx,
            ) == match self.items(start, k, acc, cmx) {
                Ok((a, n, cma)) => self.resume(stack, a, n, pre + cma),
                Err(x) => Err(x),
            },
        decreases self.len() - k,
    {
        let cmi = pre.len() as int;
        let f = SFrame::Array { start, acc, cmi };
        let stack1 = stack.push(f);
        let cm = pre + seq![placeholder(start)] + cmx;
        assert(frames_context(stack1) == Context::Array);
        self.lemma_value_progress(k, Context::Array);
        match self.value(k, Context::Array) {
            Err(x) => {},
            Ok((v, e, cmv)) => {
                assert(stack1.drop_last() =~= stack);
                let stack2 = stack.push(SFrame::Array { start, acc: acc.push(v), cmi });
                assert(stack2.drop_last() =~= stack);
                assert(self.resume(stack1, v, e, cm + cmv) == self.continue_frame(
                    stack2,
                    e,
                    cm + cmv,
                ));
                self.lemma_array_continue_progress(e);
                match self.array_continue(e) {
                    Err(x) => {},
                    Ok(ArrCont::Item(n)) => {
                        assert(cm + cmv =~= pre + seq![placeholder(start)] + (cmx + cmv));
                        self.lemma_items_stack(stack, start, n, acc.push(v), pre, cmx + cmv);
                    },
                    Ok(ArrCont::End(n)) => {
                        let full = cm + cmv;
                        assert(full.len() - cmi == 1 + cmx.len() + cmv.len());
                        assert(full.update(
                            cmi,
                            SEntry { start, end: n, volume: full.len() - cmi },
                        ) =~= pre + (seq![
                            SEntry { start, end: n, volume: 1 + cmx.len() + cmv.len() as int },
                        ] + cmx + cmv));
                    },
                }
            },
        }
    }

    /// Reading the entries of an object through the stack agrees with the
    /// grammar.
    #[verifier::rlimit(80)]
    pub proof fn lemma_members_stack(
        self,
        stack: Seq<SFrame>,
        start: int,
        key: Seq<char>,
        ks: int,
        ke: int,
        kv: int,
        acc: Seq<(Seq<char>, JValue)>,
        pre: Seq<SEntry>,
        cmx: Seq<SEntry>,
    )
        requires
            0 <= kv,
        ensures
            self.need_value(
                stack.push(
                    SFrame::Object {
                        start,
                        acc,
                        cmi: pre.len() as int,
                        key,
                        ks,
                        ke,
                        ecmi: (pre.len() + 1 + cmx.len()) as int,
                    },
                ),
                kv,
                pre + seq![placeholder(start)] + cmx + seq![
                    placeholder(ks),
                    SEntry { start: ks, end: ke, volume: 1 },
                ],
            ) == match self.members(start, key, ks, ke, kv, acc, cmx) {
                Ok((o, n, cmo)) => self.resume(stack, o, n, pre + cmo),
                Err(x) => Err(x),
            },
        decreases self.len() - kv,
    {
        let cmi = pre.len() as int;
        let ecmi = (pre.len() + 1 + cmx.len()) as int;
        let f = SFrame::Object { start, acc, cmi, key, ks, ke, ecmi };
        let stack1 = stack.push(f);
        let cm = pre + seq![placeholder(start)] + cmx + seq![
            placeholder(ks),
            SEntry { start: ks, end: ke, volume: 1 },
        ];
        assert(frames_context(stack1) == Context::ObjectValue);
        self.lemma_value_progress(kv, Context::ObjectValue);
        match self.value(kv, Context::ObjectValue) {
            Err(x) => {},
            Ok((v, e, cmv)) => {
                assert(stack1.drop_last() =~= stack);
                let acc2 = acc.push((key, v));
                let stack2 = stack.push(SFrame::Object { start, acc: acc2, cmi, key, ks, ke, ecmi });
                assert(stack2.drop_last() =~= stack);
                let full = cm + cmv;
                let entry = seq![
                    SEntry { start: ks, end: e, volume: 2 + cmv.len() as int },
                    SEntry { start: ks, end: ke, volume: 1 },
                ] + cmv;
                let cm2 = cmx + seq![
                    SEntry { start: ks, end: e, volume: 2 + cmv.len() as int },
                    SEntry { start: ks, end: ke, volume: 1 },
                ] + cmv;
                let full2 = full.update(ecmi, SEntry { start: ks, end: e, volume: full.len() - ecmi });
                assert(full.len() - ecmi == 2 + cmv.len());
                assert(full2 =~= pre + seq![placeholder(start)] + cm2);
                assert(self.need_value(stack1, kv, cm) == self.resume(stack1, v, e, full));
                assert(self.resume(stack1, v, e, full) == self.continue_frame(stack2, e, full2));
                self.lemma_object_continue_progress(e);
                match self.object_continue(e) {
                    Err(x) => {},
                    Ok(ObjCont::End(n)) => {
                        assert(full2.update(
                            cmi,
                            SEntry { start, end: n, volume: full2.len() - cmi },
                        ) =~= pre + (seq![
                            SEntry { start, end: n, volume: 1 + cm2.len() as int },
                        ] + cm2));
                        assert(self.continue_frame(stack2, e, full2) == self.resume(
                            stack,
                            JValue::Object(acc2),
                            n,
                            full2.update(cmi, SEntry { start, end: n, volume: full2.len() - cmi }),
                        ));
                        assert(self.members(start, key, ks, ke, kv, acc, cmx) == Ok::<
                            (JValue, int, Seq<SEntry>),
                            PErr,
                        >(
                            (
                                JValue::Object(acc2),
                                n,
                                seq![SEntry { start, end: n, volume: 1 + cm2.len() as int }]
                                    + cm2,
                            ),
                        ));
                    },
                    Ok(ObjCont::Entry(key2, ks2, ke2, next)) => {
                        assert(full2 + seq![
                            placeholder(ks2),
                            SEntry { start: ks2, end: ke2, volume: 1 },
                        ] =~= pre + seq![placeholder(start)] + cm2 + seq![
                            placeholder(ks2),
                            SEntry { start: ks2, end: ke2, volume: 1 },
                        ]);
                        assert(stack2.drop_last().push(
                            SFrame::Object {
                                start,
                                acc: acc2,
                                cmi,
                                key: key2,
                                ks: ks2,
                                ke: ke2,
                                ecmi: full2.len() as int,
                            },
                        ) == stack.push(
                            SFrame::Object {
                                start,
                                acc: acc2,
                                cmi: pre.len() as int,
                                key: key2,
                                ks: ks2,
                                ke: ke2,
                                ecmi: (pre.len() + 1 + cm2.len()) as int,
                            },
                        ));
                        self.lemma_members_stack(
                            stack,
                            start,
                            key2,
                            ks2,
                            ke2,
                            next,
                            acc2,
                            pre,
                            cm2,
                        );
                    },
                }
            },
        }
    }
}

} // verus!
