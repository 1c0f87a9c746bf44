//! Plugins by name.
use lore::plugins::registry::{
    AlreadyRegistered, PluginConfigError, PluginError, PluginFactory, PluginInitError,
    PluginRegistry,
};

#[derive(Debug)]
struct MockStore;

#[derive(Debug)]
struct MockMutable;

#[derive(Debug)]
struct MockTopology;

#[derive(Debug)]
struct MockLocks;

#[derive(Debug)]
struct MockNotification {
    receivers: Vec<u32>,
}

struct NotificationContext;

#[derive(Debug)]
struct Mock {
    name: &'static str,
    reported: &'static str,
    should_fail_config: bool,
    should_fail_init: bool,
}

impl Mock {
    fn new(name: &'static str) -> Self {
        Mock {
            name,
            reported: name,
            should_fail_config: false,
            should_fail_init: false,
        }
    }

    fn check(&self, config: &toml::Value) -> Result<(), PluginError> {
        if self.should_fail_config {
            return Err(PluginError::Config(PluginConfigError {
                plugin_name: self.reported.to_string(),
                message: format!("Invalid config: {config:?}"),
            }));
        }
        Ok(())
    }

    fn start(&self, config: &toml::Value) -> Result<(), PluginError> {
        self.check(config)?;
        if self.should_fail_init {
            return Err(PluginError::Init(PluginInitError {
                plugin_name: self.reported.to_string(),
                message: "Failed to initialize".to_string(),
            }));
        }
        Ok(())
    }
}

#[derive(Debug)]
struct MockImmutableStoreFactory(Mock);

impl MockImmutableStoreFactory {
    fn new(name: &'static str) -> Self {
        let mock = Mock::new(name);
        MockImmutableStoreFactory(mock)
    }

    fn with_config_error(mut self) -> Self {
        self.0.should_fail_config = true;
        self
    }

    fn with_init_error(mut self) -> Self {
        self.0.should_fail_init = true;
        self
    }
}

impl PluginFactory for MockImmutableStoreFactory {
    type Context = ();
    type Output = MockStore;

    fn name(&self) -> &'static str {
        self.0.name
    }

    fn validate_config(&self, config: &toml::Value) -> Result<(), PluginError> {
        self.0.check(config)
    }

    fn create(&self, config: &toml::Value, _context: ()) -> Result<MockStore, PluginError> {
        self.0.start(config)?;
        Ok(MockStore)
    }
}

#[derive(Debug)]
struct MockMutableStoreFactory(Mock);

impl MockMutableStoreFactory {
    fn new(name: &'static str) -> Self {
        let mock = Mock::new(name);
        MockMutableStoreFactory(mock)
    }

    fn with_config_error(mut self) -> Self {
        self.0.should_fail_config = true;
        self
    }

    fn with_init_error(mut self) -> Self {
        self.0.should_fail_init = true;
        self
    }
}

impl PluginFactory for MockMutableStoreFactory {
    type Context = MockStore;
    type Output = MockMutable;

    fn name(&self) -> &'static str {
        self.0.name
    }

    fn validate_config(&self, config: &toml::Value) -> Result<(), PluginError> {
        self.0.check(config)
    }

    fn create(&self, config: &toml::Value, _context: MockStore) -> Result<MockMutable, PluginError> {
        self.0.start(config)?;
        Ok(MockMutable)
    }
}

#[derive(Debug)]
struct MockTopologyFactory(Mock);

impl MockTopologyFactory {
    fn new(name: &'static str) -> Self {
        let mock = Mock::new(name);
        MockTopologyFactory(mock)
    }

    fn with_config_error(mut self) -> Self {
        self.0.should_fail_config = true;
        self
    }

    fn with_init_error(mut self) -> Self {
        self.0.should_fail_init = true;
        self
    }
}

impl PluginFactory for MockTopologyFactory {
    type Context = ();
    type Output = MockTopology;

    fn name(&self) -> &'static str {
        self.0.name
    }

    fn validate_config(&self, config: &toml::Value) -> Result<(), PluginError> {
        self.0.check(config)
    }

    fn create(&self, config: &toml::Value, _context: ()) -> Result<MockTopology, PluginError> {
        self.0.start(config)?;
        Ok(MockTopology)
    }
}

#[derive(Debug)]
struct MockLockStoreFactory(Mock);

impl MockLockStoreFactory {
    fn new(name: &'static str) -> Self {
        let mock = Mock::new(name);
        MockLockStoreFactory(mock)
    }

    fn with_config_error(mut self) -> Self {
        self.0.should_fail_config = true;
        self
    }

    fn with_init_error(mut self) -> Self {
        self.0.should_fail_init = true;
        self
    }
}

impl PluginFactory for MockLockStoreFactory {
    type Context = ();
    type Output = MockLocks;

    fn name(&self) -> &'static str {
        self.0.name
    }

    fn validate_config(&self, config: &toml::Value) -> Result<(), PluginError> {
        self.0.check(config)
    }

    fn create(&self, config: &toml::Value, _context: ()) -> Result<MockLocks, PluginError> {
        self.0.start(config)?;
        Ok(MockLocks)
    }
}

#[derive(Debug)]
struct MockNotificationPluginFactory(Mock);

impl MockNotificationPluginFactory {
    fn new(name: &'static str) -> Self {
        let mut mock = Mock::new(name);
        mock.reported = "mock_notification";
        MockNotificationPluginFactory(mock)
    }

    fn with_config_error(mut self) -> Self {
        self.0.should_fail_config = true;
        self
    }

    fn with_init_error(mut self) -> Self {
        self.0.should_fail_init = true;
        self
    }
}

impl PluginFactory for MockNotificationPluginFactory {
    type Context = NotificationContext;
    type Output = MockNotification;

    fn name(&self) -> &'static str {
        self.0.name
    }

    fn validate_config(&self, config: &toml::Value) -> Result<(), PluginError> {
        self.0.check(config)
    }

    fn create(&self, config: &toml::Value, _context: NotificationContext) -> Result<MockNotification, PluginError> {
        self.0.start(config)?;
        Ok(MockNotification { receivers: vec![] })
    }
}

type Registry = PluginRegistry<
    Box<MockImmutableStoreFactory>,
    MockMutableStoreFactory,
    MockLockStoreFactory,
    MockTopologyFactory,
    MockNotificationPluginFactory,
    fn(u32) -> u32,
>;

fn empty_config() -> toml::Value {
    toml::Value::Table(toml::map::Map::new())
}

#[test]
fn test_resource_detectors_empty_without_registered_detectors() {
    let mut registry = Registry::new();
    registry
        .register_immutable_store_plugin(Box::new(MockImmutableStoreFactory::new("mock")))
        .unwrap();
    assert!(registry.resource_detectors(7).is_empty());
}

#[test]
fn test_register_resource_detector_collects_each_registered_detector() {
    let mut registry = Registry::new();
    registry.register_resource_detector(|handle| handle + 1);
    registry.register_resource_detector(|handle| handle + 2);
    assert_eq!(registry.resource_detectors(7), vec![8, 9]);
    assert_eq!(registry.resource_detectors(7).len(), 2);
}

#[test]
fn test_register_immutable_store_plugin() {
    let mut registry = Registry::new();
    registry.register_immutable_store_plugin(Box::new(MockImmutableStoreFactory::new("test"))).unwrap();

    let plugins = registry.list_immutable_store_plugins();
    assert_eq!(plugins.len(), 1);
    assert!(plugins.contains(&"test".to_string()));
}

#[test]
fn test_register_multiple_immutable_store_plugins() {
    let mut registry = Registry::new();
    registry.register_immutable_store_plugin(Box::new(MockImmutableStoreFactory::new("plugin1"))).unwrap();
    registry.register_immutable_store_plugin(Box::new(MockImmutableStoreFactory::new("plugin2"))).unwrap();

    let plugins = registry.list_immutable_store_plugins();
    assert_eq!(plugins.len(), 2);
    assert!(plugins.contains(&"plugin1".to_string()));
    assert!(plugins.contains(&"plugin2".to_string()));
}

#[test]
fn test_register_duplicate_immutable_store_plugin_panics() {
    let mut registry = Registry::new();
    registry.register_immutable_store_plugin(Box::new(MockImmutableStoreFactory::new("test"))).unwrap();
    let again = registry.register_immutable_store_plugin(Box::new(MockImmutableStoreFactory::new("test")));
    assert_eq!(again, Err(AlreadyRegistered));
    assert_eq!(registry.list_immutable_store_plugins(), vec!["test".to_string()]);
}

#[test]
fn test_create_immutable_store_success() {
    let mut registry = Registry::new();
    registry.register_immutable_store_plugin(Box::new(MockImmutableStoreFactory::new("test"))).unwrap();

    let config = empty_config();
    let result = registry.create_immutable_store("test", &config, ());
    assert!(result.is_ok());
}

#[test]
fn test_create_immutable_store_not_found() {
    let mut registry = Registry::new();
    registry.register_immutable_store_plugin(Box::new(MockImmutableStoreFactory::new("other"))).unwrap();

    let config = empty_config();
    let Err(e) = registry.create_immutable_store("missing", &config, ()) else {
        panic!("expected error");
    };
    let not_found = e.as_plugin_not_found().expect("should be PluginNotFound");
    assert_eq!(not_found.plugin_name, "missing");
    assert!(not_found.available_plugins.contains(&"other".to_string()));
}

#[test]
fn test_create_immutable_store_config_error() {
    let mut registry = Registry::new();
    registry
        .register_immutable_store_plugin(Box::new(MockImmutableStoreFactory::new("test").with_config_error()))
        .unwrap();

    let config = empty_config();
    let Err(e) = registry.create_immutable_store("test", &config, ()) else {
        panic!("expected error");
    };
    let config_err = e
        .as_plugin_config_error()
        .expect("should be PluginConfigError");
    assert_eq!(config_err.plugin_name, "test");
}

#[test]
fn test_create_immutable_store_init_error() {
    let mut registry = Registry::new();
    registry
        .register_immutable_store_plugin(Box::new(MockImmutableStoreFactory::new("test").with_init_error()))
        .unwrap();

    let config = empty_config();
    let Err(e) = registry.create_immutable_store("test", &config, ()) else {
        panic!("expected error");
    };
    let init_err = e.as_plugin_init_error().expect("should be PluginInitError");
    assert_eq!(init_err.plugin_name, "test");
}

#[test]
fn test_list_empty_immutable_store_plugins() {
    let registry = Registry::new();
    assert!(registry.list_immutable_store_plugins().is_empty());
}

#[test]
fn test_validate_immutable_store_config_success() {
    let mut registry = Registry::new();
    registry.register_immutable_store_plugin(Box::new(MockImmutableStoreFactory::new("test"))).unwrap();
    assert!(registry
        .validate_immutable_store_config("test", &empty_config())
        .is_ok());
}

#[test]
fn test_validate_immutable_store_config_not_found() {
    let registry = Registry::new();
    let result = registry.validate_immutable_store_config("missing", &empty_config());
    assert!(result.expect_err("should fail").is_plugin_not_found());
}

#[test]
fn test_validate_immutable_store_config_error() {
    let mut registry = Registry::new();
    registry
        .register_immutable_store_plugin(Box::new(MockImmutableStoreFactory::new("test").with_config_error()))
        .unwrap();
    let result = registry.validate_immutable_store_config("test", &empty_config());
    assert!(result.expect_err("should fail").is_plugin_config_error());
}

#[test]
fn test_register_mutable_store_plugin() {
    let mut registry = Registry::new();
    registry.register_mutable_store_plugin(MockMutableStoreFactory::new("test")).unwrap();

    let plugins = registry.list_mutable_store_plugins();
    assert_eq!(plugins.len(), 1);
    assert!(plugins.contains(&"test".to_string()));
}

#[test]
fn test_register_multiple_mutable_store_plugins() {
    let mut registry = Registry::new();
    registry.register_mutable_store_plugin(MockMutableStoreFactory::new("plugin1")).unwrap();
    registry.register_mutable_store_plugin(MockMutableStoreFactory::new("plugin2")).unwrap();

    let plugins = registry.list_mutable_store_plugins();
    assert_eq!(plugins.len(), 2);
    assert!(plugins.contains(&"plugin1".to_string()));
    assert!(plugins.contains(&"plugin2".to_string()));
}

#[test]
fn test_register_duplicate_mutable_store_plugin_panics() {
    let mut registry = Registry::new();
    registry.register_mutable_store_plugin(MockMutableStoreFactory::new("test")).unwrap();
    let again = registry.register_mutable_store_plugin(MockMutableStoreFactory::new("test"));
    assert_eq!(again, Err(AlreadyRegistered));
    assert_eq!(registry.list_mutable_store_plugins(), vec!["test".to_string()]);
}

#[test]
fn test_create_mutable_store_success() {
    let mut registry = Registry::new();
    registry.register_mutable_store_plugin(MockMutableStoreFactory::new("test")).unwrap();

    let config = empty_config();
    let result = registry.create_mutable_store("test", &config, MockStore);
    assert!(result.is_ok());
}

#[test]
fn test_create_mutable_store_not_found() {
    let mut registry = Registry::new();
    registry.register_mutable_store_plugin(MockMutableStoreFactory::new("other")).unwrap();

    let config = empty_config();
    let Err(e) = registry.create_mutable_store("missing", &config, MockStore) else {
        panic!("expected error");
    };
    let not_found = e.as_plugin_not_found().expect("should be PluginNotFound");
    assert_eq!(not_found.plugin_name, "missing");
    assert!(not_found.available_plugins.contains(&"other".to_string()));
}

#[test]
fn test_create_mutable_store_config_error() {
    let mut registry = Registry::new();
    registry
        .register_mutable_store_plugin(MockMutableStoreFactory::new("test").with_config_error())
        .unwrap();

    let config = empty_config();
    let Err(e) = registry.create_mutable_store("test", &config, MockStore) else {
        panic!("expected error");
    };
    let config_err = e
        .as_plugin_config_error()
        .expect("should be PluginConfigError");
    assert_eq!(config_err.plugin_name, "test");
}

#[test]
fn test_create_mutable_store_init_error() {
    let mut registry = Registry::new();
    registry
        .register_mutable_store_plugin(MockMutableStoreFactory::new("test").with_init_error())
        .unwrap();

    let config = empty_config();
    let Err(e) = registry.create_mutable_store("test", &config, MockStore) else {
        panic!("expected error");
    };
    let init_err = e.as_plugin_init_error().expect("should be PluginInitError");
    assert_eq!(init_err.plugin_name, "test");
}

#[test]
fn test_list_empty_mutable_store_plugins() {
    let registry = Registry::new();
    assert!(registry.list_mutable_store_plugins().is_empty());
}

#[test]
fn test_validate_mutable_store_config_success() {
    let mut registry = Registry::new();
    registry.register_mutable_store_plugin(MockMutableStoreFactory::new("test")).unwrap();
    assert!(registry
        .validate_mutable_store_config("test", &empty_config())
        .is_ok());
}

#[test]
fn test_validate_mutable_store_config_not_found() {
    let registry = Registry::new();
    let result = registry.validate_mutable_store_config("missing", &empty_config());
    assert!(result.expect_err("should fail").is_plugin_not_found());
}

#[test]
fn test_validate_mutable_store_config_error() {
    let mut registry = Registry::new();
    registry
        .register_mutable_store_plugin(MockMutableStoreFactory::new("test").with_config_error())
        .unwrap();
    let result = registry.validate_mutable_store_config("test", &empty_config());
    assert!(result.expect_err("should fail").is_plugin_config_error());
}

#[test]
fn test_register_topology_plugin() {
    let mut registry = Registry::new();
    registry.register_topology_plugin(MockTopologyFactory::new("test")).unwrap();

    let plugins = registry.list_topology_plugins();
    assert_eq!(plugins.len(), 1);
    assert!(plugins.contains(&"test".to_string()));
}

#[test]
fn test_register_multiple_topology_plugins() {
    let mut registry = Registry::new();
    registry.register_topology_plugin(MockTopologyFactory::new("plugin1")).unwrap();
    registry.register_topology_plugin(MockTopologyFactory::new("plugin2")).unwrap();

    let plugins = registry.list_topology_plugins();
    assert_eq!(plugins.len(), 2);
    assert!(plugins.contains(&"plugin1".to_string()));
    assert!(plugins.contains(&"plugin2".to_string()));
}

#[test]
fn test_register_duplicate_topology_plugin_panics() {
    let mut registry = Registry::new();
    registry.register_topology_plugin(MockTopologyFactory::new("test")).unwrap();
    let again = registry.register_topology_plugin(MockTopologyFactory::new("test"));
    assert_eq!(again, Err(AlreadyRegistered));
    assert_eq!(registry.list_topology_plugins(), vec!["test".to_string()]);
}

#[test]
fn test_create_topology_success() {
    let mut registry = Registry::new();
    registry.register_topology_plugin(MockTopologyFactory::new("test")).unwrap();

    let config = empty_config();
    let result = registry.create_topology("test", &config, ());
    assert!(result.is_ok());
}

#[test]
fn test_create_topology_not_found() {
    let mut registry = Registry::new();
    registry.register_topology_plugin(MockTopologyFactory::new("other")).unwrap();

    let config = empty_config();
    let Err(e) = registry.create_topology("missing", &config, ()) else {
        panic!("expected error");
    };
    let not_found = e.as_plugin_not_found().expect("should be PluginNotFound");
    assert_eq!(not_found.plugin_name, "missing");
    assert!(not_found.available_plugins.contains(&"other".to_string()));
}

#[test]
fn test_create_topology_config_error() {
    let mut registry = Registry::new();
    registry
        .register_topology_plugin(MockTopologyFactory::new("test").with_config_error())
        .unwrap();

    let config = empty_config();
    let Err(e) = registry.create_topology("test", &config, ()) else {
        panic!("expected error");
    };
    let config_err = e
        .as_plugin_config_error()
        .expect("should be PluginConfigError");
    assert_eq!(config_err.plugin_name, "test");
}

#[test]
fn test_create_topology_init_error() {
    let mut registry = Registry::new();
    registry
        .register_topology_plugin(MockTopologyFactory::new("test").with_init_error())
        .unwrap();

    let config = empty_config();
    let Err(e) = registry.create_topology("test", &config, ()) else {
        panic!("expected error");
    };
    let init_err = e.as_plugin_init_error().expect("should be PluginInitError");
    assert_eq!(init_err.plugin_name, "test");
}

#[test]
fn test_list_empty_topology_plugins() {
    let registry = Registry::new();
    assert!(registry.list_topology_plugins().is_empty());
}

#[test]
fn test_validate_topology_config_success() {
    let mut registry = Registry::new();
    registry.register_topology_plugin(MockTopologyFactory::new("test")).unwrap();
    assert!(registry
        .validate_topology_config("test", &empty_config())
        .is_ok());
}

#[test]
fn test_validate_topology_config_not_found() {
    let registry = Registry::new();
    let result = registry.validate_topology_config("missing", &empty_config());
    assert!(result.expect_err("should fail").is_plugin_not_found());
}

#[test]
fn test_validate_topology_config_error() {
    let mut registry = Registry::new();
    registry
        .register_topology_plugin(MockTopologyFactory::new("test").with_config_error())
        .unwrap();
    let result = registry.validate_topology_config("test", &empty_config());
    assert!(result.expect_err("should fail").is_plugin_config_error());
}

#[test]
fn test_register_lock_store_plugin() {
    let mut registry = Registry::new();
    registry.register_lock_store_plugin(MockLockStoreFactory::new("test")).unwrap();

    let plugins = registry.list_lock_store_plugins();
    assert_eq!(plugins.len(), 1);
    assert!(plugins.contains(&"test".to_string()));
}

#[test]
fn test_register_multiple_lock_store_plugins() {
    let mut registry = Registry::new();
    registry.register_lock_store_plugin(MockLockStoreFactory::new("plugin1")).unwrap();
    registry.register_lock_store_plugin(MockLockStoreFactory::new("plugin2")).unwrap();

    let plugins = registry.list_lock_store_plugins();
    assert_eq!(plugins.len(), 2);
    assert!(plugins.contains(&"plugin1".to_string()));
    assert!(plugins.contains(&"plugin2".to_string()));
}

#[test]
fn test_register_duplicate_lock_store_plugin_panics() {
    let mut registry = Registry::new();
    registry.register_lock_store_plugin(MockLockStoreFactory::new("test")).unwrap();
    let again = registry.register_lock_store_plugin(MockLockStoreFactory::new("test"));
    assert_eq!(again, Err(AlreadyRegistered));
    assert_eq!(registry.list_lock_store_plugins(), vec!["test".to_string()]);
}

#[test]
fn test_create_lock_store_success() {
    let mut registry = Registry::new();
    registry.register_lock_store_plugin(MockLockStoreFactory::new("test")).unwrap();

    let config = empty_config();
    let result = registry.create_lock_store("test", &config, ());
    assert!(result.is_ok());
}

#[test]
fn test_create_lock_store_not_found() {
    let mut registry = Registry::new();
    registry.register_lock_store_plugin(MockLockStoreFactory::new("other")).unwrap();

    let config = empty_config();
    let Err(e) = registry.create_lock_store("missing", &config, ()) else {
        panic!("expected error");
    };
    let not_found = e.as_plugin_not_found().expect("should be PluginNotFound");
    assert_eq!(not_found.plugin_name, "missing");
    assert!(not_found.available_plugins.contains(&"other".to_string()));
}

#[test]
fn test_create_lock_store_config_error() {
    let mut registry = Registry::new();
    registry
        .register_lock_store_plugin(MockLockStoreFactory::new("test").with_config_error())
        .unwrap();

    let config = empty_config();
    let Err(e) = registry.create_lock_store("test", &config, ()) else {
        panic!("expected error");
    };
    let config_err = e
        .as_plugin_config_error()
        .expect("should be PluginConfigError");
    assert_eq!(config_err.plugin_name, "test");
}

#[test]
fn test_create_lock_store_init_error() {
    let mut registry = Registry::new();
    registry
        .register_lock_store_plugin(MockLockStoreFactory::new("test").with_init_error())
        .unwrap();

    let config = empty_config();
    let Err(e) = registry.create_lock_store("test", &config, ()) else {
        panic!("expected error");
    };
    let init_err = e.as_plugin_init_error().expect("should be PluginInitError");
    assert_eq!(init_err.plugin_name, "test");
}

#[test]
fn test_list_empty_lock_store_plugins() {
    let registry = Registry::new();
    assert!(registry.list_lock_store_plugins().is_empty());
}

#[test]
fn test_validate_lock_store_config_success() {
    let mut registry = Registry::new();
    registry.register_lock_store_plugin(MockLockStoreFactory::new("test")).unwrap();
    assert!(registry
        .validate_lock_store_config("test", &empty_config())
        .is_ok());
}

#[test]
fn test_validate_lock_store_config_not_found() {
    let registry = Registry::new();
    let result = registry.validate_lock_store_config("missing", &empty_config());
    assert!(result.expect_err("should fail").is_plugin_not_found());
}

#[test]
fn test_validate_lock_store_config_error() {
    let mut registry = Registry::new();
    registry
        .register_lock_store_plugin(MockLockStoreFactory::new("test").with_config_error())
        .unwrap();
    let result = registry.validate_lock_store_config("test", &empty_config());
    assert!(result.expect_err("should fail").is_plugin_config_error());
}

#[test]
fn test_register_notification_plugin() {
    let mut registry = Registry::new();
    registry.register_notification_plugin(MockNotificationPluginFactory::new("test")).unwrap();

    let plugins = registry.list_notification_plugins();
    assert_eq!(plugins.len(), 1);
    assert!(plugins.contains(&"test".to_string()));
}

#[test]
fn test_register_multiple_notification_plugins() {
    let mut registry = Registry::new();
    registry.register_notification_plugin(MockNotificationPluginFactory::new("plugin1")).unwrap();
    registry.register_notification_plugin(MockNotificationPluginFactory::new("plugin2")).unwrap();

    let plugins = registry.list_notification_plugins();
    assert_eq!(plugins.len(), 2);
    assert!(plugins.contains(&"plugin1".to_string()));
    assert!(plugins.contains(&"plugin2".to_string()));
}

#[test]
fn test_register_duplicate_notification_plugin_panics() {
    let mut registry = Registry::new();
    registry.register_notification_plugin(MockNotificationPluginFactory::new("test")).unwrap();
    let again = registry.register_notification_plugin(MockNotificationPluginFactory::new("test"));
    assert_eq!(again, Err(AlreadyRegistered));
    assert_eq!(registry.list_notification_plugins(), vec!["test".to_string()]);
}

#[test]
fn test_create_notification_success() {
    let mut registry = Registry::new();
    registry.register_notification_plugin(MockNotificationPluginFactory::new("test")).unwrap();

    let config = empty_config();
    let result = registry.create_notification("test", &config, NotificationContext);
    assert!(result.is_ok());
    let output = result.expect("create_notification should succeed");
    assert!(output.receivers.is_empty());
}

#[test]
fn test_create_notification_not_found() {
    let mut registry = Registry::new();
    registry.register_notification_plugin(MockNotificationPluginFactory::new("other")).unwrap();

    let config = empty_config();
    let Err(e) = registry.create_notification("missing", &config, NotificationContext) else {
        panic!("expected error");
    };
    let not_found = e.as_plugin_not_found().expect("should be PluginNotFound");
    assert_eq!(not_found.plugin_name, "missing");
    assert!(not_found.available_plugins.contains(&"other".to_string()));
}

#[test]
fn test_create_notification_config_error() {
    let mut registry = Registry::new();
    registry
        .register_notification_plugin(MockNotificationPluginFactory::new("test").with_config_error())
        .unwrap();

    let config = empty_config();
    let Err(e) = registry.create_notification("test", &config, NotificationContext) else {
        panic!("expected error");
    };
    let config_err = e
        .as_plugin_config_error()
        .expect("should be PluginConfigError");
    assert_eq!(config_err.plugin_name, "mock_notification");
}

#[test]
fn test_create_notification_init_error() {
    let mut registry = Registry::new();
    registry
        .register_notification_plugin(MockNotificationPluginFactory::new("test").with_init_error())
        .unwrap();

    let config = empty_config();
    let Err(e) = registry.create_notification("test", &config, NotificationContext) else {
        panic!("expected error");
    };
    let init_err = e.as_plugin_init_error().expect("should be PluginInitError");
    assert_eq!(init_err.plugin_name, "mock_notification");
}

#[test]
fn test_list_empty_notification_plugins() {
    let registry = Registry::new();
    assert!(registry.list_notification_plugins().is_empty());
}

#[test]
fn test_validate_notification_config_success() {
    let mut registry = Registry::new();
    registry.register_notification_plugin(MockNotificationPluginFactory::new("test")).unwrap();
    assert!(registry
        .validate_notification_config("test", &empty_config())
        .is_ok());
}

#[test]
fn test_validate_notification_config_not_found() {
    let registry = Registry::new();
    let result = registry.validate_notification_config("missing", &empty_config());
    assert!(result.expect_err("should fail").is_plugin_not_found());
}

#[test]
fn test_validate_notification_config_error() {
    let mut registry = Registry::new();
    registry
        .register_notification_plugin(MockNotificationPluginFactory::new("test").with_config_error())
        .unwrap();
    let result = registry.validate_notification_config("test", &empty_config());
    assert!(result.expect_err("should fail").is_plugin_config_error());
}

#[test]
fn test_empty_registry() {
    let registry = Registry::new();
    assert!(registry.list_immutable_store_plugins().is_empty());
    assert!(registry.list_mutable_store_plugins().is_empty());
    assert!(registry.list_topology_plugins().is_empty());
    assert!(registry.list_lock_store_plugins().is_empty());
    assert!(registry.list_notification_plugins().is_empty());
}

#[test]
fn test_registry_debug() {
    let mut registry = Registry::new();
    registry
        .register_immutable_store_plugin(Box::new(MockImmutableStoreFactory::new("is1")))
        .unwrap();
    registry
        .register_mutable_store_plugin(MockMutableStoreFactory::new("ms1"))
        .unwrap();
    registry
        .register_topology_plugin(MockTopologyFactory::new("tp1"))
        .unwrap();
    registry
        .register_lock_store_plugin(MockLockStoreFactory::new("ls1"))
        .unwrap();
    registry
        .register_notification_plugin(MockNotificationPluginFactory::new("np1"))
        .unwrap();

    let debug_str = format!("{registry:?}");
    assert!(debug_str.contains("is1"));
    assert!(debug_str.contains("ms1"));
    assert!(debug_str.contains("tp1"));
    assert!(debug_str.contains("ls1"));
    assert!(debug_str.contains("np1"));
}

#[test]
fn a_refused_registration_keeps_the_first_plugin() {
    let mut registry = Registry::new();
    registry
        .register_topology_plugin(MockTopologyFactory::new("test"))
        .unwrap();
    assert!(registry
        .register_topology_plugin(MockTopologyFactory::new("test").with_init_error())
        .is_err());
    assert_eq!(registry.list_topology_plugins(), vec!["test".to_string()]);
    assert!(registry.create_topology("test", &empty_config(), ()).is_ok());
}
