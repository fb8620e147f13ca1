//! Printing with a context: for values whose text depends on something
//! beside themselves.
use vstd::prelude::*;
use super::{Options, Size, sizes_view};

verus! {

/// Printing with a context.
pub trait PrintWithContext<C> {
    /// `self` can be printed in `context` with `options` at the indentation
    /// level `indent`.
    spec fn contextual_printable(&self, context: &C, options: Options, indent: nat) -> bool;

    /// What is printed for `self` in `context`.
    spec fn contextual_printed(&self, context: &C, options: Options, indent: nat) -> Seq<char>;

    /// Appends the text of `self` in `context` to `f`.
    fn contextual_fmt_with(&self, context: &C, f: &mut String, options: &Options, indent: usize)
        requires
            self.contextual_printable(context, *options, indent as nat),
        ensures
            final(f)@ == old(f)@ + self.contextual_printed(context, *options, indent as nat),
    ;
}

impl<'a, T: PrintWithContext<C>, C> PrintWithContext<C> for &'a T {
    open spec fn contextual_printable(&self, context: &C, options: Options, indent: nat) -> bool {
        (**self).contextual_printable(context, options, indent)
    }

    open spec fn contextual_printed(&self, context: &C, options: Options, indent: nat) -> Seq<
        char,
    > {
        (**self).contextual_printed(context, options, indent)
    }

    fn contextual_fmt_with(&self, context: &C, f: &mut String, options: &Options, indent: usize) {
        (**self).contextual_fmt_with(context, f, options, indent)
    }
}

/// Printing with pre-computed sizes and a context.
pub trait PrintWithSizeAndContext<C> {
    /// `self` can be printed in `context`.
    spec fn contextual_printable_with_size(
        &self,
        context: &C,
        options: Options,
        indent: nat,
    ) -> bool;

    /// The number of size slots that printing `self` in `context` reads.
    spec fn contextual_slots_read(&self, context: &C) -> nat;

    /// What is printed for `self` in `context`, the size slots being read
    /// from `sizes` from `at` on.
    spec fn contextual_printed_with_size(
        &self,
        context: &C,
        options: Options,
        indent: nat,
        sizes: Seq<Option<int>>,
        at: int,
    ) -> Seq<char>;

    /// Appends the text of `self` in `context` to `f`, reading the sizes of
    /// its arrays and objects from `sizes`, from `*index` on.
    fn contextual_fmt_with_size(
        &self,
        context: &C,
        f: &mut String,
        options: &Options,
        indent: usize,
        sizes: &[Size],
        index: &mut usize,
    )
        requires
            self.contextual_printable_with_size(context, *options, indent as nat),
            *old(index) + self.contextual_slots_read(context) <= sizes@.len(),
        ensures
            final(f)@ == old(f)@ + self.contextual_printed_with_size(
                context,
                *options,
                indent as nat,
                sizes_view(sizes@),
                *old(index) as int,
            ),
            *final(index) == *old(index) + self.contextual_slots_read(context),
    ;
}

impl<'a, T: PrintWithSizeAndContext<C>, C> PrintWithSizeAndContext<C> for &'a T {
    open spec fn contextual_printable_with_size(
        &self,
        context: &C,
        options: Options,
        indent: nat,
    ) -> bool {
        (**self).contextual_printable_with_size(context, options, indent)
    }

    open spec fn contextual_slots_read(&self, context: &C) -> nat {
        (**self).contextual_slots_read(context)
    }

    open spec fn contextual_printed_with_size(
        &self,
        context: &C,
        options: Options,
        indent: nat,
        sizes: Seq<Option<int>>,
        at: int,
    ) -> Seq<char> {
        (**self).contextual_printed_with_size(context, options, indent, sizes, at)
    }

    fn contextual_fmt_with_size(
        &self,
        context: &C,
        f: &mut String,
        options: &Options,
        indent: usize,
        sizes: &[Size],
        index: &mut usize,
    ) {
        (**self).contextual_fmt_with_size(context, f, options, indent, sizes, index)
    }
}

/// Size pre-computation with a context.
pub trait PrecomputeSizeWithContext<C> {
    /// No width computed for `self` in `context` overflows.
    spec fn contextual_size_computable(&self, context: &C, options: Options) -> bool;

    /// The size of `self` in `context`.
    spec fn contextual_computed_size(&self, context: &C, options: Options) -> Option<int>;

    /// The sizes of the arrays and objects of `self` in `context`, in
    /// pre-order.
    spec fn contextual_computed_sizes(&self, context: &C, options: Options) -> Seq<Option<int>>;

    /// Computes the size of `self` in `context`, and appends the sizes of
    /// its arrays and objects, in pre-order, to `sizes`.
    fn contextual_pre_compute_size(
        &self,
        context: &C,
        options: &Options,
        sizes: &mut Vec<Size>,
    ) -> (r: Size)
        requires
            self.contextual_size_computable(context, *options),
        ensures
            r@ == self.contextual_computed_size(context, *options),
            sizes_view(final(sizes)@) == sizes_view(old(sizes)@) + self.contextual_computed_sizes(
                context,
                *options,
            ),
    ;
}

impl<'a, T: PrecomputeSizeWithContext<C>, C> PrecomputeSizeWithContext<C> for &'a T {
    open spec fn contextual_size_computable(&self, context: &C, options: Options) -> bool {
        (**self).contextual_size_computable(context, options)
    }

    open spec fn contextual_computed_size(&self, context: &C, options: Options) -> Option<int> {
        (**self).contextual_computed_size(context, options)
    }

    open spec fn contextual_computed_sizes(&self, context: &C, options: Options) -> Seq<
        Option<int>,
    > {
        (**self).contextual_computed_sizes(context, options)
    }

    fn contextual_pre_compute_size(
        &self,
        context: &C,
        options: &Options,
        sizes: &mut Vec<Size>,
    ) -> (r: Size) {
        (**self).contextual_pre_compute_size(context, options, sizes)
    }
}

} // verus!
