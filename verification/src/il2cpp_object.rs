use vstd::prelude::*;

verus! {

/// The header of every managed object: the addresses of its class and of
/// its monitor.
pub struct Il2CppObject {
    klass: usize,
    monitor: usize,
}

impl Il2CppObject {
    /// The address of the object's class.
    pub closed spec fn spec_klass(&self) -> usize {
        self.klass
    }

    /// The address of the object's monitor.
    pub closed spec fn spec_monitor(&self) -> usize {
        self.monitor
    }
}

impl Default for Il2CppObject {
    /// A header with no class and no monitor.
    fn default() -> (r: Self)
        ensures
            r.spec_klass() == 0,
            r.spec_monitor() == 0,
    {
        Self { klass: 0, monitor: 0 }
    }
}

} // verus!
