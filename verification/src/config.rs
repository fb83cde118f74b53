use vstd::prelude::*;

verus! {

/// How many lines of context to show around each matching line.
pub struct ContextConfig {
    pub before: usize,
    pub after: usize,
}

impl ContextConfig {
    /// Combine the separate before/after options with the unified context
    /// option: a positive unified value overrides both.
    pub fn resolve(before: usize, after: usize, context: usize) -> (c: ContextConfig)
        ensures
            context > 0 ==> c.before == context && c.after == context,
            context == 0 ==> c.before == before && c.after == after,
    {
        if context > 0 {
            ContextConfig { before: context, after: context }
        } else {
            ContextConfig { before, after }
        }
    }
}

} // verus!
