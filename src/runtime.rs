//! The runtime facade: process-wide configuration, the discovery entry
//! point, and builders for producers and consumers.
use vstd::prelude::*;

use crate::error::Error;
use crate::instance::{FindServiceSpecifier, InstanceSpecifier};
use crate::proxy::Subscriber;
use crate::registry::{entry_of, found, ServiceHandle, ServiceRegistry};

verus! {

/// A service interface: the identifier two processes agree on.
pub trait Interface {
    /// The identifier, as a sequence of characters.
    spec fn id() -> Seq<char>;

    fn interface_id() -> (r: &'static str)
        ensures
            r@ == Self::id(),
    ;
}

/// Builds an object, consuming the builder.
pub trait Builder<Output> {
    fn build(self) -> Result<Output, Error>;
}

/// A builder of the runtime that loads configuration first.
pub trait RuntimeBuilder: Builder<Runtime> {
    /// Names the configuration file for the process.
    fn load_config(&mut self, path: &str);
}

/// Discovers the available instances of one interface.
pub trait ServiceDiscovery {
    /// One consumer builder per available instance; empty when there is none.
    fn get_available_instances(&self, runtime: &Runtime) -> Result<Vec<SampleConsumerBuilder>, Error>
        requires
            runtime.wf(),
    ;
}

/// Builds a consumer of one discovered instance.
pub trait ConsumerBuilder: Builder<SampleConsumer> {
    /// The instance path of the discovered offering.
    fn get_instance_identifier(&self) -> &str;
}

/// Builds a producer for one instance.
pub trait ProducerBuilder: Builder<Producer> {}

/// The consumer role of an interface, created from a discovered offering.
pub trait Consumer: Sized {
    fn new(handle: ServiceHandle) -> Self;
}

/// The transport binding a runtime uses.
#[derive(Debug, Clone, Copy, PartialEq, Eq, Structural)]
pub enum Binding {
    /// Shared-memory slots.
    SharedMemory,
    /// In-process test binding.
    Mock,
}

/// Configures and builds the runtime.
#[derive(Debug)]
pub struct RuntimeBuilderImpl {
    manifest_path: Option<String>,
    binding: Binding,
}

impl RuntimeBuilderImpl {
    pub closed spec fn manifest(&self) -> Option<Seq<char>> {
        match &self.manifest_path {
            Some(p) => Some(p@),
            None => None,
        }
    }

    pub closed spec fn binding_spec(&self) -> Binding {
        self.binding
    }

    /// A builder for the shared-memory binding with no configuration file.
    pub fn new() -> (r: RuntimeBuilderImpl)
        ensures
            r.manifest() is None,
            r.binding_spec() == Binding::SharedMemory,
    {
        RuntimeBuilderImpl { manifest_path: None, binding: Binding::SharedMemory }
    }

    /// Names the service-instance configuration file the loader will parse.
    pub fn set_config(&mut self, path: &str)
        ensures
            final(self).manifest() == Some(path@),
            final(self).binding_spec() == old(self).binding_spec(),
    {
        self.manifest_path = Some(path.to_string());
    }

    /// Selects the binding.
    pub fn set_binding(&mut self, binding: Binding)
        ensures
            final(self).manifest() == old(self).manifest(),
            final(self).binding_spec() == binding,
    {
        self.binding = binding;
    }
}

impl RuntimeBuilder for RuntimeBuilderImpl {
    fn load_config(&mut self, path: &str)
        ensures
            final(self).manifest() == Some(path@),
            final(self).binding_spec() == old(self).binding_spec(),
    {
        self.set_config(path);
    }
}

impl Builder<Runtime> for RuntimeBuilderImpl {
    fn build(self) -> (r: Result<Runtime, Error>)
        ensures
            r is Ok,
            r matches Ok(rt) ==> {
                &&& rt.wf()
                &&& rt.registry()@.table.len() == 0
                &&& rt.registry()@.last_epoch == 0
                &&& rt.manifest() == self.manifest()
                &&& rt.binding_spec() == self.binding_spec()
            },
    {
        Ok(Runtime { manifest_path: self.manifest_path, binding: self.binding, registry: ServiceRegistry::new() })
    }
}

/// The process-wide runtime: its configuration and its service registry.
#[derive(Debug)]
pub struct Runtime {
    manifest_path: Option<String>,
    binding: Binding,
    registry: ServiceRegistry,
}

impl Runtime {
    pub closed spec fn registry(&self) -> ServiceRegistry {
        self.registry
    }

    pub open spec fn wf(&self) -> bool {
        self.registry().wf()
    }

    pub closed spec fn binding_spec(&self) -> Binding {
        self.binding
    }

    pub closed spec fn manifest(&self) -> Option<Seq<char>> {
        match &self.manifest_path {
            Some(p) => Some(p@),
            None => None,
        }
    }

    /// The binding chosen at construction.
    pub fn binding(&self) -> (b: Binding)
        ensures
            b == self.binding_spec(),
    {
        self.binding
    }

    /// The configuration file named at construction, if any.
    pub fn manifest_path(&self) -> (p: Option<&str>)
        ensures
            p is None <==> self.manifest() is None,
            p matches Some(s) ==> self.manifest() == Some(s@),
    {
        match &self.manifest_path {
            Some(p) => Some(p.as_str()),
            None => None,
        }
    }

    /// Starts a discovery of the instances of interface `I` that `query` asks for.
    pub fn find_service<I: Interface>(&self, query: FindServiceSpecifier) -> (r: SampleConsumerDiscovery)
        ensures
            r.interface() == I::id(),
            r.query() == query,
    {
        SampleConsumerDiscovery { interface_id: I::interface_id().to_string(), query }
    }

    /// A builder for a producer of interface `I` at `instance`.
    pub fn producer_builder<I: Interface>(&self, instance: InstanceSpecifier) -> (r: SampleProducerBuilder)
        ensures
            r.interface() == I::id(),
            r.instance() == instance@,
    {
        SampleProducerBuilder { interface_id: I::interface_id().to_string(), instance }
    }
}

/// A discovery of the instances of one interface.
#[derive(Debug)]
pub struct SampleConsumerDiscovery {
    interface_id: String,
    query: FindServiceSpecifier,
}

impl SampleConsumerDiscovery {
    pub closed spec fn interface(&self) -> Seq<char> {
        self.interface_id@
    }

    pub closed spec fn query(&self) -> FindServiceSpecifier {
        self.query
    }

    /// One consumer builder per live offering that the discovery asks for,
    /// in registry order; empty when there is none.
    pub fn available(&self, runtime: &Runtime) -> (r: Result<Vec<SampleConsumerBuilder>, Error>)
        requires
            runtime.wf(),
        ensures
            r matches Ok(v) ==> {
                let hs = found(runtime.registry()@.table, self.interface(), self.query().wanted());
                &&& v@.len() == hs.len()
                &&& forall|i: int| 0 <= i < v@.len() ==> (#[trigger] v@[i]).handle()@ == hs[i]
            },
            r is Ok,
    {
        let handles = runtime.registry.find_service(self.interface_id.as_str(), &self.query);
        let mut out: Vec<SampleConsumerBuilder> = Vec::new();
        let mut i: usize = 0;
        while i < handles.len()
            invariant
                i <= handles@.len(),
                out@.len() == i,
                forall|k: int| 0 <= k < i ==> (#[trigger] out@[k]).handle()@ == handles@[k]@,
            decreases handles@.len() - i,
        {
            out.push(SampleConsumerBuilder { handle: handles[i].clone_handle() });
            i = i + 1;
        }
        Ok(out)
    }
}

impl ServiceDiscovery for SampleConsumerDiscovery {
    fn get_available_instances(&self, runtime: &Runtime) -> (r: Result<Vec<SampleConsumerBuilder>, Error>)
        ensures
            r is Ok,
            r matches Ok(v) ==> {
                let hs = found(runtime.registry()@.table, self.interface(), self.query().wanted());
                &&& v@.len() == hs.len()
                &&& forall|i: int| 0 <= i < v@.len() ==> (#[trigger] v@[i]).handle()@ == hs[i]
            },
    {
        self.available(runtime)
    }
}

/// Builds a consumer for one discovered offering.
#[derive(Debug)]
pub struct SampleConsumerBuilder {
    handle: ServiceHandle,
}

impl SampleConsumerBuilder {
    pub closed spec fn handle(&self) -> ServiceHandle {
        self.handle
    }

    /// The handle of the offering.
    pub fn service_handle(&self) -> (r: &ServiceHandle)
        ensures
            *r == self.handle(),
    {
        &self.handle
    }

    /// The instance path of the offering.
    pub fn instance_identifier(&self) -> (r: &str)
        ensures
            r@ == self.handle()@.instance,
    {
        self.handle.instance()
    }
}

impl Builder<SampleConsumer> for SampleConsumerBuilder {
    fn build(self) -> (r: Result<SampleConsumer, Error>)
        ensures
            r is Ok,
            r matches Ok(c) ==> c.handle() == self.handle(),
    {
        Ok(SampleConsumer { handle: self.handle })
    }
}

impl ConsumerBuilder for SampleConsumerBuilder {
    fn get_instance_identifier(&self) -> (r: &str)
        ensures
            r@ == self.handle()@.instance,
    {
        self.instance_identifier()
    }
}

/// A consumer of one discovered offering.
#[derive(Debug)]
pub struct SampleConsumer {
    handle: ServiceHandle,
}

impl Consumer for SampleConsumer {
    fn new(handle: ServiceHandle) -> (r: SampleConsumer)
        ensures
            r.handle() == handle,
    {
        SampleConsumer { handle }
    }
}

impl SampleConsumer {
    pub closed spec fn handle(&self) -> ServiceHandle {
        self.handle
    }

    /// The handle of the offering consumed.
    pub fn service_handle(&self) -> (r: &ServiceHandle)
        ensures
            *r == self.handle(),
    {
        &self.handle
    }

    /// A subscriber for the event named `identifier` of this offering.
    pub fn subscriber(&self, identifier: &str) -> (r: Subscriber)
        ensures
            r.identifier() == identifier@,
    {
        Subscriber::new(identifier)
    }
}

/// Builds a producer of one interface at one instance.
#[derive(Debug)]
pub struct SampleProducerBuilder {
    interface_id: String,
    instance: InstanceSpecifier,
}

impl SampleProducerBuilder {
    pub closed spec fn interface(&self) -> Seq<char> {
        self.interface_id@
    }

    pub closed spec fn instance(&self) -> Seq<char> {
        self.instance@
    }
}

impl ProducerBuilder for SampleProducerBuilder {}

impl Builder<Producer> for SampleProducerBuilder {
    fn build(self) -> (r: Result<Producer, Error>)
        ensures
            r is Ok,
            r matches Ok(p) ==> p.interface() == self.interface() && p.instance() == self.instance(),
    {
        Ok(Producer { interface_id: self.interface_id, instance: self.instance })
    }
}

/// A producer that is not offered.
#[derive(Debug)]
pub struct Producer {
    interface_id: String,
    instance: InstanceSpecifier,
}

/// A producer whose instance is offered.
#[derive(Debug)]
pub struct OfferedProducer {
    producer: Producer,
    handle: ServiceHandle,
}

impl Producer {
    pub closed spec fn interface(&self) -> Seq<char> {
        self.interface_id@
    }

    pub closed spec fn instance(&self) -> Seq<char> {
        self.instance@
    }

    /// Offers the producer's instance in the runtime's registry. Fails with
    /// `Fail`, handing the producer back, when it is already offered.
    pub fn offer(self, runtime: &mut Runtime) -> (r: Result<OfferedProducer, (Error, Producer)>)
        requires
            old(runtime).wf(),
        ensures
            final(runtime).wf(),
            r is Ok <==> !old(runtime).registry()@.offered(self.interface(), self.instance())
                && old(runtime).registry()@.last_epoch < u64::MAX,
            r matches Ok(o) ==> o.handle()@.interface_id == self.interface() && o.handle()@.instance
                == self.instance() && o.handle()@.epoch == old(runtime).registry()@.last_epoch + 1
                && final(runtime).registry()@.live(o.handle()@),
            r matches Err((e, p)) ==> e == Error::Fail && p == self && final(runtime).registry()@
                == old(runtime).registry()@,
    {
        match runtime.registry.offer(self.interface_id.as_str(), &self.instance) {
            Ok(handle) => Ok(OfferedProducer { producer: self, handle }),
            Err(e) => Err((e, self)),
        }
    }
}

impl OfferedProducer {
    pub closed spec fn handle(&self) -> ServiceHandle {
        self.handle
    }

    /// The handle of this offering.
    pub fn service_handle(&self) -> (r: &ServiceHandle)
        ensures
            *r == self.handle(),
    {
        &self.handle
    }

    /// Withdraws the offering and hands the producer back.
    pub fn unoffer(self, runtime: &mut Runtime) -> (r: Producer)
        requires
            old(runtime).wf(),
        ensures
            final(runtime).wf(),
            !final(runtime).registry()@.live(self.handle()@),
            final(runtime).registry()@.last_epoch == old(runtime).registry()@.last_epoch,
            final(runtime).registry()@.table.len() == old(runtime).registry()@.table.len(),
            forall|j: int|
                0 <= j < old(runtime).registry()@.table.len() && !entry_of(
                    old(runtime).registry()@.table,
                    self.handle()@.interface_id,
                    self.handle()@.instance,
                    j,
                ) ==> #[trigger] final(runtime).registry()@.table[j] == old(runtime).registry()@.table[j],
    {
        let _ = runtime.registry.stop_offer(&self.handle);
        self.producer
    }
}

} // verus!
