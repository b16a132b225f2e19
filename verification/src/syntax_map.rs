//! The index as its owner holds it: the layers, the version of the buffer
//! that they reflect, and the registry of languages.

use crate::buffer::{edits_fit, BufferSnapshot, Edit};
use crate::interpolate::interpolated;
use crate::language::{share, LanguageDef, LanguageRegistry};
use crate::layer::{depth_sorted, ranges_in_order, trees_built, SyntaxLayer};
use crate::reparse::reparsed_in;
use crate::snapshot::SyntaxSnapshot;
use std::sync::Arc;
use vstd::prelude::*;

verus! {

/// The syntax layers of one buffer, kept up to date as the buffer changes.
#[derive(Debug)]
pub struct SyntaxMap {
    pub(crate) version: usize,
    pub(crate) snapshot: SyntaxSnapshot,
    pub(crate) language_registry: Option<Arc<LanguageRegistry>>,
}

impl View for SyntaxMap {
    type V = Seq<SyntaxLayer>;

    /// The layers.
    open(crate) spec fn view(&self) -> Seq<SyntaxLayer> {
        self.snapshot@
    }
}

impl SyntaxMap {
    /// The version of the buffer that the layers were last brought in line
    /// with.
    pub open(crate) spec fn spec_version(&self) -> usize {
        self.version
    }

    /// Whether the layers are in order of depth, least deep first, the
    /// range of each is in order, and the tree of each was built under the
    /// grammar of its language.
    pub open spec fn well_formed(&self) -> bool {
        depth_sorted(self@) && ranges_in_order(self@) && trees_built(self@)
    }

    /// The registry in which embedded languages are looked up.
    pub open(crate) spec fn registry(&self) -> Option<Arc<LanguageRegistry>> {
        self.language_registry
    }

    /// A map without layers and without a registry.
    pub fn new() -> (map: SyntaxMap)
        ensures
            map@ == Seq::<SyntaxLayer>::empty(),
            map.registry() is None,
            map.spec_version() == 0,
            map.well_formed(),
    {
        SyntaxMap { version: 0, snapshot: SyntaxSnapshot::new(), language_registry: None }
    }

    /// Sets the registry in which embedded languages are looked up from now
    /// on.
    pub fn set_language_registry(&mut self, registry: Arc<LanguageRegistry>)
        ensures
            final(self).registry() == Some(registry),
            final(self)@ == old(self)@,
            final(self).spec_version() == old(self).spec_version(),
            final(self).well_formed() == old(self).well_formed(),
    {
        self.language_registry = Some(registry);
    }

    /// A copy of the layers as they are now.
    pub fn snapshot(&self) -> (snapshot: SyntaxSnapshot)
        ensures
            snapshot@ == self@,
            snapshot.well_formed() == self.well_formed(),
    {
        self.snapshot.clone()
    }

    /// The version of the buffer that the layers were last brought in line
    /// with.
    #[verifier::when_used_as_spec(spec_version)]
    pub fn version(&self) -> (version: usize)
        ensures
            version == self.spec_version(),
    {
        self.version
    }

    /// Carries the layers over the edits that have led to `buffer`, and notes
    /// the version of `buffer`.
    pub fn interpolate(&mut self, edits: &Vec<Edit>, buffer: &BufferSnapshot)
        requires
            edits_fit(edits@, buffer.text@),
        ensures
            final(self)@.len() == old(self)@.len(),
            forall|i: int|
                0 <= i < old(self)@.len() ==> #[trigger] final(self)@[i] == interpolated(
                    old(self)@[i],
                    edits@,
                    *buffer,
                ),
            final(self).spec_version() == buffer.version,
            final(self).registry() == old(self).registry(),
            old(self).well_formed() ==> final(self).well_formed(),
    {
        self.snapshot.interpolate(edits, buffer);
        self.version = buffer.version;
    }

    /// Rebuilds the layers for `buffer`, whose whole text is in `language`,
    /// and notes the version of `buffer`.
    pub fn reparse(&mut self, language: Arc<LanguageDef>, buffer: &BufferSnapshot)
        ensures
            exists|n: nat| #[trigger]
                reparsed_in(old(self)@, old(self).registry(), language, *buffer, n, final(self)@),
            final(self).spec_version() == buffer.version,
            final(self).registry() == old(self).registry(),
            old(self).well_formed() ==> final(self).well_formed(),
    {
        self.version = buffer.version;
        let registry = match &self.language_registry {
            Some(registry) => Some(share(registry)),
            None => None,
        };
        let ghost before = self.snapshot@;
        let ghost known = registry;
        let ghost root = language;
        let mut snapshot = SyntaxSnapshot::new();
        std::mem::swap(&mut snapshot, &mut self.snapshot);
        snapshot.reparse(registry, language, buffer);
        let ghost n = choose|n: nat| #[trigger]
            reparsed_in(before, known, root, *buffer, n, snapshot@);
        self.snapshot = snapshot;
        assert(reparsed_in(old(self)@, old(self).registry(), root, *buffer, n, self@));
    }
}

impl std::ops::Deref for SyntaxMap {
    type Target = SyntaxSnapshot;

    fn deref(&self) -> (snapshot: &SyntaxSnapshot)
        ensures
            snapshot@ == self@,
    {
        &self.snapshot
    }
}

impl Default for SyntaxMap {
    fn default() -> (map: SyntaxMap)
        ensures
            map@ == Seq::<SyntaxLayer>::empty(),
            map.registry() is None,
            map.spec_version() == 0,
    {
        SyntaxMap::new()
    }
}

} // verus!
