//! What makes stores, locks, topologies and notifications, by name.
//!
//! Plugins are registered when the server starts, and instances are made from them as the
//! configuration says.
use vstd::prelude::*;

verus! {

/// A configuration value of the toml crate. It is handed through to the plugins.
#[verifier::external_type_specification]
#[verifier::external_body]
pub struct ExTomlValue(toml::Value);

/// There is no plugin of a name.
#[derive(Debug)]
pub struct PluginNotFound {
    pub plugin_name: String,
    pub available_plugins: Vec<String>,
}

/// A plugin refused its configuration.
#[derive(Debug)]
pub struct PluginConfigError {
    pub plugin_name: String,
    pub message: String,
}

/// A plugin could not make an instance.
#[derive(Debug)]
pub struct PluginInitError {
    pub plugin_name: String,
    pub message: String,
}

/// Why a plugin could not be used.
#[derive(Debug)]
pub enum PluginError {
    NotFound(PluginNotFound),
    Config(PluginConfigError),
    Init(PluginInitError),
}

/// A plugin of that name is already registered.
#[derive(Clone, Copy, Debug, PartialEq, Eq, Structural)]
pub struct AlreadyRegistered;

/// Makes instances of one kind from a configuration.
pub trait PluginFactory {
    /// What an instance needs besides its configuration.
    type Context;

    /// What is made.
    type Output;

    /// The name of the plugin.
    fn name(&self) -> &'static str;

    /// Checks a configuration without making an instance.
    fn validate_config(&self, config: &toml::Value) -> Result<(), PluginError>;

    /// Makes an instance.
    fn create(&self, config: &toml::Value, context: Self::Context) -> Result<
        Self::Output,
        PluginError,
    >;
}

impl PluginError {
    /// Whether there was no plugin of the name.
    pub fn is_plugin_not_found(&self) -> (r: bool)
        ensures
            r == (*self is NotFound),
    {
        matches!(self, PluginError::NotFound(_))
    }

    /// Whether the configuration was refused.
    pub fn is_plugin_config_error(&self) -> (r: bool)
        ensures
            r == (*self is Config),
    {
        matches!(self, PluginError::Config(_))
    }

    /// What is known where there was no plugin of the name.
    pub fn as_plugin_not_found(&self) -> (r: Option<&PluginNotFound>)
        ensures
            r == match *self {
                PluginError::NotFound(e) => Some(&e),
                _ => None,
            },
    {
        match self {
            PluginError::NotFound(e) => Some(e),
            _ => None,
        }
    }

    /// What is known where the configuration was refused.
    pub fn as_plugin_config_error(&self) -> (r: Option<&PluginConfigError>)
        ensures
            r == match *self {
                PluginError::Config(e) => Some(&e),
                _ => None,
            },
    {
        match self {
            PluginError::Config(e) => Some(e),
            _ => None,
        }
    }

    /// What is known where no instance could be made.
    pub fn as_plugin_init_error(&self) -> (r: Option<&PluginInitError>)
        ensures
            r == match *self {
                PluginError::Init(e) => Some(&e),
                _ => None,
            },
    {
        match self {
            PluginError::Init(e) => Some(e),
            _ => None,
        }
    }
}

/// A plugin under its name.
#[derive(Debug)]
pub struct Registered<F> {
    pub name: String,
    pub factory: F,
}

/// The plugins of one kind, in the order in which they were registered.
#[derive(Debug)]
pub struct PluginTable<F> {
    pub entries: Vec<Registered<F>>,
}

impl<F> PluginTable<F> {
    /// The names of the plugins.
    pub open spec fn names(self) -> Seq<Seq<char>> {
        Seq::new(self.entries@.len(), |i: int| self.entries@[i].name@)
    }

    /// No name is taken twice.
    pub open spec fn wf(self) -> bool {
        forall|i: int, j: int|
            0 <= i < j < self.entries@.len() ==> (#[trigger] self.entries@[i]).name@ != (
            #[trigger] self.entries@[j]).name@
    }

    /// Where a name is found.
    pub open spec fn position(self, name: Seq<char>) -> Option<int> {
        if exists|i: int| 0 <= i < self.entries@.len() && (#[trigger] self.entries@[i]).name@ == name
        {
            Some(
                choose|i: int|
                    0 <= i < self.entries@.len() && (#[trigger] self.entries@[i]).name@ == name,
            )
        } else {
            None
        }
    }

    /// Whether an error says that a name was not found among the plugins.
    pub open spec fn reports_missing(self, name: Seq<char>, error: PluginError) -> bool {
        &&& error is NotFound
        &&& error->NotFound_0.plugin_name@ == name
        &&& error->NotFound_0.available_plugins@.len() == self.entries@.len()
        &&& forall|i: int|
            0 <= i < self.entries@.len() ==> (
            #[trigger] error->NotFound_0.available_plugins@[i])@ == self.entries@[i].name@
    }

    /// No plugins.
    pub fn new() -> (r: PluginTable<F>)
        ensures
            r.wf(),
            r.entries@.len() == 0,
    {
        PluginTable { entries: Vec::new() }
    }

    /// Where a name is found.
    fn find(&self, name: &str) -> (r: Option<usize>)
        requires
            self.wf(),
        ensures
            r is Some <==> self.position(name@) is Some,
            r is Some ==> r->0 == self.position(name@)->0 && r->0 < self.entries@.len()
                && self.entries@[r->0 as int].name@ == name@,
    {
        let wanted = name.to_owned();
        let mut i: usize = 0;
        while i < self.entries.len()
            invariant
                self.wf(),
                wanted@ == name@,
                i <= self.entries@.len(),
                forall|k: int| 0 <= k < i ==> (#[trigger] self.entries@[k]).name@ != name@,
            decreases self.entries@.len() - i,
        {
            if self.entries[i].name == wanted {
                assert(self.entries@[i as int].name@ == name@);
                proof {
                    let w = self.position(name@)->0;
                    assert(self.entries@[w].name@ == name@);
                    if w < i {
                        assert(self.entries@[w].name@ != self.entries@[i as int].name@);
                    } else if i < w {
                        assert(self.entries@[i as int].name@ != self.entries@[w].name@);
                    }
                }
                return Some(i);
            }
            i = i + 1;
        }
        None
    }

    /// The names of the plugins, in the order in which they were registered.
    pub fn list(&self) -> (r: Vec<String>)
        ensures
            r@.len() == self.entries@.len(),
            forall|i: int|
                0 <= i < r@.len() ==> (#[trigger] r@[i])@ == self.entries@[i].name@,
    {
        let mut names: Vec<String> = Vec::new();
        let mut i: usize = 0;
        while i < self.entries.len()
            invariant
                i <= self.entries@.len(),
                names@.len() == i,
                forall|k: int| 0 <= k < i ==> (#[trigger] names@[k])@ == self.entries@[k].name@,
            decreases self.entries@.len() - i,
        {
            names.push(self.entries[i].name.clone());
            i = i + 1;
        }
        names
    }

    /// The error for a name that is not there.
    fn missing(&self, name: &str) -> (r: PluginError)
        ensures
            self.reports_missing(name@, r),
    {
        PluginError::NotFound(
            PluginNotFound { plugin_name: name.to_owned(), available_plugins: self.list() },
        )
    }
}

/// Whether a table is another after a plugin was to be registered: with the plugin at its end, under
/// the name that it gave itself, or as it was where the name was taken.
pub open spec fn registered<F: PluginFactory>(
    before: PluginTable<F>,
    after: PluginTable<F>,
    factory: F,
    ok: bool,
) -> bool {
    exists|name: &'static str| #[trigger]
        call_ensures(F::name, (&factory,), name) && if before.position(name@) is Some {
            !ok && after.entries@ == before.entries@
        } else {
            &&& ok
            &&& after.entries@.len() == before.entries@.len() + 1
            &&& after.entries@.drop_last() == before.entries@
            &&& after.entries@.last().name@ == name@
            &&& after.entries@.last().factory == factory
        }
}

impl<F: PluginFactory> PluginTable<F> {
    /// Registers a plugin under the name that it gives itself, unless the name is taken.
    pub fn register(&mut self, factory: F) -> (r: Result<(), AlreadyRegistered>)
        requires
            old(self).wf(),
        ensures
            final(self).wf(),
            registered(*old(self), *final(self), factory, r is Ok),
    {
        let name = factory.name();
        if self.find(name).is_some() {
            return Err(AlreadyRegistered);
        }
        let ghost before = self.entries@;
        self.entries.push(Registered { name: name.to_owned(), factory });
        assert(self.entries@.drop_last() =~= before);
        Ok(())
    }

    /// Checks a configuration with the plugin of a name.
    pub fn validate(&self, name: &str, config: &toml::Value) -> (r: Result<(), PluginError>)
        requires
            self.wf(),
        ensures
            match self.position(name@) {
                Some(i) => call_ensures(
                    F::validate_config,
                    (&self.entries@[i].factory, config),
                    r,
                ),
                None => r is Err && self.reports_missing(name@, r->Err_0),
            },
    {
        match self.find(name) {
            Some(i) => self.entries[i].factory.validate_config(config),
            None => Err(self.missing(name)),
        }
    }

    /// Makes an instance with the plugin of a name.
    pub fn create(&self, name: &str, config: &toml::Value, context: F::Context) -> (r: Result<
        F::Output,
        PluginError,
    >)
        requires
            self.wf(),
        ensures
            match self.position(name@) {
                Some(i) => call_ensures(
                    F::create,
                    (&self.entries@[i].factory, config, context),
                    r,
                ),
                None => r is Err && self.reports_missing(name@, r->Err_0),
            },
    {
        match self.find(name) {
            Some(i) => self.entries[i].factory.create(config, context),
            None => Err(self.missing(name)),
        }
    }
}

impl<F: PluginFactory + ?Sized> PluginFactory for Box<F> {
    type Context = F::Context;

    type Output = F::Output;

    fn name(&self) -> (r: &'static str)
        ensures
            call_ensures(F::name, (&**self,), r),
    {
        (**self).name()
    }

    fn validate_config(&self, config: &toml::Value) -> (r: Result<(), PluginError>)
        ensures
            call_ensures(F::validate_config, (&**self, config), r),
    {
        (**self).validate_config(config)
    }

    fn create(&self, config: &toml::Value, context: F::Context) -> (r: Result<
        F::Output,
        PluginError,
    >)
        ensures
            call_ensures(F::create, (&**self, config, context), r),
    {
        (**self).create(config, context)
    }
}

/// All plugins of a server: a table for each kind, and what describes the environment that the
/// server runs in.
#[derive(Debug)]
pub struct PluginRegistry<I, M, L, T, N, D> {
    pub immutable_stores: PluginTable<I>,
    pub mutable_stores: PluginTable<M>,
    pub lock_stores: PluginTable<L>,
    pub topologies: PluginTable<T>,
    pub notifications: PluginTable<N>,
    pub resource_detectors: Vec<D>,
}

impl<I, M, L, T, N, D> PluginRegistry<I, M, L, T, N, D> {
    /// No name is taken twice within a kind.
    pub open spec fn wf(self) -> bool {
        &&& self.immutable_stores.wf()
        &&& self.mutable_stores.wf()
        &&& self.lock_stores.wf()
        &&& self.topologies.wf()
        &&& self.notifications.wf()
    }

    /// A registry without plugins.
    pub fn new() -> (r: PluginRegistry<I, M, L, T, N, D>)
        ensures
            r.wf(),
            r.immutable_stores.entries@.len() == 0,
            r.mutable_stores.entries@.len() == 0,
            r.lock_stores.entries@.len() == 0,
            r.topologies.entries@.len() == 0,
            r.notifications.entries@.len() == 0,
            r.resource_detectors@.len() == 0,
    {
        PluginRegistry {
            immutable_stores: PluginTable::new(),
            mutable_stores: PluginTable::new(),
            lock_stores: PluginTable::new(),
            topologies: PluginTable::new(),
            notifications: PluginTable::new(),
            resource_detectors: Vec::new(),
        }
    }

    /// Registers what builds a detector of the environment. Detectors are registered on their own,
    /// whatever else a plugin registers.
    pub fn register_resource_detector(&mut self, detector: D)
        ensures
            final(self).resource_detectors@ == old(self).resource_detectors@.push(detector),
            final(self).immutable_stores == old(self).immutable_stores,
            final(self).mutable_stores == old(self).mutable_stores,
            final(self).lock_stores == old(self).lock_stores,
            final(self).topologies == old(self).topologies,
            final(self).notifications == old(self).notifications,
    {
        self.resource_detectors.push(detector);
    }

    /// Builds all detectors, in the order in which they were registered.
    pub fn resource_detectors<H: Copy, R>(&self, handle: H) -> (r: Vec<R>) where D: Fn(H) -> R
        requires
            forall|i: int|
                0 <= i < self.resource_detectors@.len() ==> call_requires(
                    #[trigger] self.resource_detectors@[i],
                    (handle,),
                ),
        ensures
            r@.len() == self.resource_detectors@.len(),
            forall|i: int|
                0 <= i < r@.len() ==> call_ensures(
                    self.resource_detectors@[i],
                    (handle,),
                    #[trigger] r@[i],
                ),
    {
        let mut built: Vec<R> = Vec::new();
        let mut i: usize = 0;
        while i < self.resource_detectors.len()
            invariant
                i <= self.resource_detectors@.len(),
                built@.len() == i,
                forall|k: int|
                    0 <= k < self.resource_detectors@.len() ==> call_requires(
                        #[trigger] self.resource_detectors@[k],
                        (handle,),
                    ),
                forall|k: int|
                    0 <= k < i ==> call_ensures(
                        self.resource_detectors@[k],
                        (handle,),
                        #[trigger] built@[k],
                    ),
            decreases self.resource_detectors@.len() - i,
        {
            let detector = &self.resource_detectors[i];
            assert(call_requires(self.resource_detectors@[i as int], (handle,)));
            built.push(detector(handle));
            i = i + 1;
        }
        built
    }

    /// The names of the immutable store plugins, in the order in which they were registered.
    pub fn list_immutable_store_plugins(&self) -> (r: Vec<String>)
        ensures
            r@.len() == self.immutable_stores.entries@.len(),
            forall|i: int|
                0 <= i < r@.len() ==> (#[trigger] r@[i])@ == self.immutable_stores.entries@[i].name@,
    {
        self.immutable_stores.list()
    }

    /// The names of the mutable store plugins, in the order in which they were registered.
    pub fn list_mutable_store_plugins(&self) -> (r: Vec<String>)
        ensures
            r@.len() == self.mutable_stores.entries@.len(),
            forall|i: int|
                0 <= i < r@.len() ==> (#[trigger] r@[i])@ == self.mutable_stores.entries@[i].name@,
    {
        self.mutable_stores.list()
    }

    /// The names of the lock store plugins, in the order in which they were registered.
    pub fn list_lock_store_plugins(&self) -> (r: Vec<String>)
        ensures
            r@.len() == self.lock_stores.entries@.len(),
            forall|i: int|
                0 <= i < r@.len() ==> (#[trigger] r@[i])@ == self.lock_stores.entries@[i].name@,
    {
        self.lock_stores.list()
    }

    /// The names of the topology plugins, in the order in which they were registered.
    pub fn list_topology_plugins(&self) -> (r: Vec<String>)
        ensures
            r@.len() == self.topologies.entries@.len(),
            forall|i: int|
                0 <= i < r@.len() ==> (#[trigger] r@[i])@ == self.topologies.entries@[i].name@,
    {
        self.topologies.list()
    }

    /// The names of the notification plugins, in the order in which they were registered.
    pub fn list_notification_plugins(&self) -> (r: Vec<String>)
        ensures
            r@.len() == self.notifications.entries@.len(),
            forall|i: int|
                0 <= i < r@.len() ==> (#[trigger] r@[i])@ == self.notifications.entries@[i].name@,
    {
        self.notifications.list()
    }
}

impl<I, M, L, T, N, D> PluginRegistry<I, M, L, T, N, D> where I: PluginFactory {
    /// Registers an immutable store plugin under the name that it gives itself, unless the name is taken.
    pub fn register_immutable_store_plugin(&mut self, factory: I) -> (r: Result<(), AlreadyRegistered>)
        requires
            old(self).wf(),
        ensures
            final(self).wf(),
            registered(old(self).immutable_stores, final(self).immutable_stores, factory, r is Ok),
            final(self).mutable_stores == old(self).mutable_stores,
            final(self).lock_stores == old(self).lock_stores,
            final(self).topologies == old(self).topologies,
            final(self).notifications == old(self).notifications,
            final(self).resource_detectors == old(self).resource_detectors,
    {
        self.immutable_stores.register(factory)
    }

    /// Checks a configuration with the immutable store plugin of a name.
    pub fn validate_immutable_store_config(&self, plugin_name: &str, config: &toml::Value) -> (r: Result<
        (),
        PluginError,
    >)
        requires
            self.wf(),
        ensures
            match self.immutable_stores.position(plugin_name@) {
                Some(i) => call_ensures(
                    I::validate_config,
                    (&self.immutable_stores.entries@[i].factory, config),
                    r,
                ),
                None => r is Err && self.immutable_stores.reports_missing(plugin_name@, r->Err_0),
            },
    {
        self.immutable_stores.validate(plugin_name, config)
    }

    /// Makes an instance with the immutable store plugin of a name.
    pub fn create_immutable_store(
        &self,
        plugin_name: &str,
        config: &toml::Value,
        context: I::Context,
    ) -> (r: Result<I::Output, PluginError>)
        requires
            self.wf(),
        ensures
            match self.immutable_stores.position(plugin_name@) {
                Some(i) => call_ensures(
                    I::create,
                    (&self.immutable_stores.entries@[i].factory, config, context),
                    r,
                ),
                None => r is Err && self.immutable_stores.reports_missing(plugin_name@, r->Err_0),
            },
    {
        self.immutable_stores.create(plugin_name, config, context)
    }
}

impl<I, M, L, T, N, D> PluginRegistry<I, M, L, T, N, D> where M: PluginFactory {
    /// Registers a mutable store plugin under the name that it gives itself, unless the name is taken.
    pub fn register_mutable_store_plugin(&mut self, factory: M) -> (r: Result<(), AlreadyRegistered>)
        requires
            old(self).wf(),
        ensures
            final(self).wf(),
            registered(old(self).mutable_stores, final(self).mutable_stores, factory, r is Ok),
            final(self).immutable_stores == old(self).immutable_stores,
            final(self).lock_stores == old(self).lock_stores,
            final(self).topologies == old(self).topologies,
            final(self).notifications == old(self).notifications,
            final(self).resource_detectors == old(self).resource_detectors,
    {
        self.mutable_stores.register(factory)
    }

    /// Checks a configuration with the mutable store plugin of a name.
    pub fn validate_mutable_store_config(&self, plugin_name: &str, config: &toml::Value) -> (r: Result<
        (),
        PluginError,
    >)
        requires
            self.wf(),
        ensures
            match self.mutable_stores.position(plugin_name@) {
                Some(i) => call_ensures(
                    M::validate_config,
                    (&self.mutable_stores.entries@[i].factory, config),
                    r,
                ),
                None => r is Err && self.mutable_stores.reports_missing(plugin_name@, r->Err_0),
            },
    {
        self.mutable_stores.validate(plugin_name, config)
    }

    /// Makes an instance with the mutable store plugin of a name.
    pub fn create_mutable_store(
        &self,
        plugin_name: &str,
        config: &toml::Value,
        context: M::Context,
    ) -> (r: Result<M::Output, PluginError>)
        requires
            self.wf(),
        ensures
            match self.mutable_stores.position(plugin_name@) {
                Some(i) => call_ensures(
                    M::create,
                    (&self.mutable_stores.entries@[i].factory, config, context),
                    r,
                ),
                None => r is Err && self.mutable_stores.reports_missing(plugin_name@, r->Err_0),
            },
    {
        self.mutable_stores.create(plugin_name, config, context)
    }
}

impl<I, M, L, T, N, D> PluginRegistry<I, M, L, T, N, D> where L: PluginFactory {
    /// Registers a lock store plugin under the name that it gives itself, unless the name is taken.
    pub fn register_lock_store_plugin(&mut self, factory: L) -> (r: Result<(), AlreadyRegistered>)
        requires
            old(self).wf(),
        ensures
            final(self).wf(),
            registered(old(self).lock_stores, final(self).lock_stores, factory, r is Ok),
            final(self).immutable_stores == old(self).immutable_stores,
            final(self).mutable_stores == old(self).mutable_stores,
            final(self).topologies == old(self).topologies,
            final(self).notifications == old(self).notifications,
            final(self).resource_detectors == old(self).resource_detectors,
    {
        self.lock_stores.register(factory)
    }

    /// Checks a configuration with the lock store plugin of a name.
    pub fn validate_lock_store_config(&self, plugin_name: &str, config: &toml::Value) -> (r: Result<
        (),
        PluginError,
    >)
        requires
            self.wf(),
        ensures
            match self.lock_stores.position(plugin_name@) {
                Some(i) => call_ensures(
                    L::validate_config,
                    (&self.lock_stores.entries@[i].factory, config),
                    r,
                ),
                None => r is Err && self.lock_stores.reports_missing(plugin_name@, r->Err_0),
            },
    {
        self.lock_stores.validate(plugin_name, config)
    }

    /// Makes an instance with the lock store plugin of a name.
    pub fn create_lock_store(
        &self,
        plugin_name: &str,
        config: &toml::Value,
        context: L::Context,
    ) -> (r: Result<L::Output, PluginError>)
        requires
            self.wf(),
        ensures
            match self.lock_stores.position(plugin_name@) {
                Some(i) => call_ensures(
                    L::create,
                    (&self.lock_stores.entries@[i].factory, config, context),
                    r,
                ),
                None => r is Err && self.lock_stores.reports_missing(plugin_name@, r->Err_0),
            },
    {
        self.lock_stores.create(plugin_name, config, context)
    }
}

impl<I, M, L, T, N, D> PluginRegistry<I, M, L, T, N, D> where T: PluginFactory {
    /// Registers a topology plugin under the name that it gives itself, unless the name is taken.
    pub fn register_topology_plugin(&mut self, factory: T) -> (r: Result<(), AlreadyRegistered>)
        requires
            old(self).wf(),
        ensures
            final(self).wf(),
            registered(old(self).topologies, final(self).topologies, factory, r is Ok),
            final(self).immutable_stores == old(self).immutable_stores,
            final(self).mutable_stores == old(self).mutable_stores,
            final(self).lock_stores == old(self).lock_stores,
            final(self).notifications == old(self).notifications,
            final(self).resource_detectors == old(self).resource_detectors,
    {
        self.topologies.register(factory)
    }

    /// Checks a configuration with the topology plugin of a name.
    pub fn validate_topology_config(&self, plugin_name: &str, config: &toml::Value) -> (r: Result<
        (),
        PluginError,
    >)
        requires
            self.wf(),
        ensures
            match self.topologies.position(plugin_name@) {
                Some(i) => call_ensures(
                    T::validate_config,
                    (&self.topologies.entries@[i].factory, config),
                    r,
                ),
                None => r is Err && self.topologies.reports_missing(plugin_name@, r->Err_0),
            },
    {
        self.topologies.validate(plugin_name, config)
    }

    /// Makes an instance with the topology plugin of a name.
    pub fn create_topology(
        &self,
        plugin_name: &str,
        config: &toml::Value,
        context: T::Context,
    ) -> (r: Result<T::Output, PluginError>)
        requires
            self.wf(),
        ensures
            match self.topologies.position(plugin_name@) {
                Some(i) => call_ensures(
                    T::create,
                    (&self.topologies.entries@[i].factory, config, context),
                    r,
                ),
                None => r is Err && self.topologies.reports_missing(plugin_name@, r->Err_0),
            },
    {
        self.topologies.create(plugin_name, config, context)
    }
}

impl<I, M, L, T, N, D> PluginRegistry<I, M, L, T, N, D> where N: PluginFactory {
    /// Registers a notification plugin under the name that it gives itself, unless the name is taken.
    pub fn register_notification_plugin(&mut self, factory: N) -> (r: Result<(), AlreadyRegistered>)
        requires
            old(self).wf(),
        ensures
            final(self).wf(),
            registered(old(self).notifications, final(self).notifications, factory, r is Ok),
            final(self).immutable_stores == old(self).immutable_stores,
            final(self).mutable_stores == old(self).mutable_stores,
            final(self).lock_stores == old(self).lock_stores,
            final(self).topologies == old(self).topologies,
            final(self).resource_detectors == old(self).resource_detectors,
    {
        self.notifications.register(factory)
    }

    /// Checks a configuration with the notification plugin of a name.
    pub fn validate_notification_config(&self, plugin_name: &str, config: &toml::Value) -> (r: Result<
        (),
        PluginError,
    >)
        requires
            self.wf(),
        ensures
            match self.notifications.position(plugin_name@) {
                Some(i) => call_ensures(
                    N::validate_config,
                    (&self.notifications.entries@[i].factory, config),
                    r,
                ),
                None => r is Err && self.notifications.reports_missing(plugin_name@, r->Err_0),
            },
    {
        self.notifications.validate(plugin_name, config)
    }

    /// Makes an instance with the notification plugin of a name.
    pub fn create_notification(
        &self,
        plugin_name: &str,
        config: &toml::Value,
        context: N::Context,
    ) -> (r: Result<N::Output, PluginError>)
        requires
            self.wf(),
        ensures
            match self.notifications.position(plugin_name@) {
                Some(i) => call_ensures(
                    N::create,
                    (&self.notifications.entries@[i].factory, config, context),
                    r,
                ),
                None => r is Err && self.notifications.reports_missing(plugin_name@, r->Err_0),
            },
    {
        self.notifications.create(plugin_name, config, context)
    }
}

/// A name that was found stays found when more plugins are registered, with the same plugin.
pub proof fn law_registration_keeps_plugins<F: PluginFactory>(
    before: PluginTable<F>,
    after: PluginTable<F>,
    factory: F,
    ok: bool,
    name: Seq<char>,
)
    requires
        before.wf(),
        after.wf(),
        registered(before, after, factory, ok),
        before.position(name) is Some,
    ensures
        after.position(name) == before.position(name),
        after.entries@[before.position(name)->0].factory == before.entries@[before.position(
            name,
        )->0].factory,
{
    let i = before.position(name)->0;
    assert(before.entries@[i].name@ == name);
    if ok {
        assert(after.entries@.drop_last()[i] == before.entries@[i]);
    }
    assert(after.entries@[i] == before.entries@[i]);
    let w = after.position(name)->0;
    assert(after.entries@[w].name@ == name);
    if w < i {
        assert(after.entries@[w].name@ != after.entries@[i].name@);
    } else if i < w {
        assert(after.entries@[i].name@ != after.entries@[w].name@);
    }
}

/// A plugin that was registered is found under the name that it gave, and is the one that was given.
/// One whose name is taken is refused, and the table stays as it is.
pub proof fn law_registered_plugin_is_found<F: PluginFactory>(
    before: PluginTable<F>,
    after: PluginTable<F>,
    factory: F,
    ok: bool,
)
    requires
        before.wf(),
        after.wf(),
        registered(before, after, factory, ok),
    ensures
        exists|name: &'static str| #[trigger]
            call_ensures(F::name, (&factory,), name) && (ok <==> before.position(name@) is None)
                && after.position(name@) is Some && (ok ==> after.entries@[after.position(
                name@,
            )->0].factory == factory),
        !ok ==> after.entries@ == before.entries@,
        ok ==> after.entries@.len() == before.entries@.len() + 1,
{
    let name = choose|name: &'static str| #[trigger]
        call_ensures(F::name, (&factory,), name) && if before.position(name@) is Some {
            !ok && after.entries@ == before.entries@
        } else {
            &&& ok
            &&& after.entries@.len() == before.entries@.len() + 1
            &&& after.entries@.drop_last() == before.entries@
            &&& after.entries@.last().name@ == name@
            &&& after.entries@.last().factory == factory
        };
    assert(call_ensures(F::name, (&factory,), name));
    if ok {
        let last = after.entries@.len() - 1;
        assert(after.entries@[last].name@ == name@);
        let i = after.position(name@)->0;
        assert(after.entries@[i].name@ == name@);
        if i < last {
            assert(after.entries@[i].name@ != after.entries@[last].name@);
        }
    } else {
        let i = before.position(name@)->0;
        assert(before.entries@[i].name@ == name@);
        assert(after.entries@[i].name@ == name@);
    }
}

/// Whoever asks for a plugin that is not there is told which one was asked for, and the names of all
/// that are there, in the order in which they were registered.
pub proof fn law_missing_plugins_are_reported<F>(
    table: PluginTable<F>,
    name: Seq<char>,
    error: PluginError,
    i: int,
)
    requires
        table.reports_missing(name, error),
        0 <= i < table.entries@.len(),
    ensures
        error is NotFound,
        error->NotFound_0.plugin_name@ == name,
        error->NotFound_0.available_plugins@.len() == table.entries@.len(),
        error->NotFound_0.available_plugins@[i]@ == table.entries@[i].name@,
        table.position(table.entries@[i].name@) is Some,
{
    assert(table.entries@[i].name@ == table.entries@[i].name@);
}

} // verus!
