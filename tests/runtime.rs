use com_api::instance::{FindServiceSpecifier, InstanceSpecifier};
use com_api::runtime::{
    Binding, Builder, ConsumerBuilder, Producer, Runtime, RuntimeBuilder, RuntimeBuilderImpl,
    ServiceDiscovery,
};
use com_api::skeleton::{SkeletonEvent, UnOffered};
use com_api::container::SampleContainer;
use com_api::proxy::ReceiveProgress;
use com_api::vehicle::{AnotherInterface, Tire, VehicleInterface};

fn runtime() -> Runtime {
    let builder = RuntimeBuilderImpl::new();
    Builder::<Runtime>::build(builder).unwrap()
}

fn use_producer(runtime: &mut Runtime) -> com_api::runtime::OfferedProducer {
    let producer_builder = runtime.producer_builder::<VehicleInterface>(
        InstanceSpecifier::new("/My/Funk/ServiceName").unwrap(),
    );
    let producer: Producer = producer_builder.build().unwrap();
    match producer.offer(runtime) {
        Ok(o) => o,
        Err((e, _)) => panic!("{:?}", e),
    }
}

#[test]
fn create_producer() {
    let mut rt = runtime();
    let offered = use_producer(&mut rt);
    assert_eq!(offered.service_handle().instance(), "/My/Funk/ServiceName");
    assert_eq!(offered.service_handle().interface_id(), "VehicleInterface");
}

#[test]
fn create_consumer() {
    let mut rt = runtime();
    let _offered = use_producer(&mut rt);
    let discovery = rt.find_service::<VehicleInterface>(FindServiceSpecifier::Any);
    let available = discovery.get_available_instances(&rt).unwrap();
    let consumer_builder = available
        .into_iter()
        .find(|desc| desc.get_instance_identifier() == "/My/Funk/ServiceName")
        .unwrap();
    let consumer = consumer_builder.build().unwrap();
    assert_eq!(consumer.subscriber("left_tire").event_id(), "left_tire");
}

#[test]
fn other_interfaces_are_not_found() {
    let mut rt = runtime();
    let _offered = use_producer(&mut rt);
    let discovery = rt.find_service::<AnotherInterface>(FindServiceSpecifier::Any);
    assert!(discovery.get_available_instances(&rt).unwrap().is_empty());
}

#[test]
fn unoffer_withdraws_the_instance() {
    let mut rt = runtime();
    let offered = use_producer(&mut rt);
    let producer = offered.unoffer(&mut rt);
    let discovery = rt.find_service::<VehicleInterface>(FindServiceSpecifier::Any);
    assert!(discovery.get_available_instances(&rt).unwrap().is_empty());
    assert!(producer.offer(&mut rt).is_ok());
}

#[test]
fn offering_twice_fails() {
    let mut rt = runtime();
    let _offered = use_producer(&mut rt);
    let producer_builder = rt.producer_builder::<VehicleInterface>(
        InstanceSpecifier::new("/My/Funk/ServiceName").unwrap(),
    );
    let producer = producer_builder.build().unwrap();
    assert!(matches!(producer.offer(&mut rt), Err((com_api::error::Error::Fail, _))));
}

#[test]
fn runtime_builder_options() {
    let mut builder = RuntimeBuilderImpl::new();
    builder.load_config("etc/mw_com_config.json");
    builder.set_binding(Binding::Mock);
    let rt = Builder::<Runtime>::build(builder).unwrap();
    assert_eq!(rt.binding(), Binding::Mock);
    assert_eq!(rt.manifest_path(), Some("etc/mw_com_config.json"));
}

#[test]
fn runtime_send_stuff() {
    let test_publisher = SkeletonEvent::<u32, UnOffered>::new("left_tire", 3, 1, false).offer();
    let mut test_publisher = test_publisher;
    let sample = test_publisher.allocate().expect("Couldn't allocate sample");
    let sample = sample.write(42);
    test_publisher.send_sample(sample).expect("Send failed for sample");
}

#[test]
fn producer_send_stuff() {
    let mut test_publisher = SkeletonEvent::<Tire, UnOffered>::new("left_tire", 2, 1, false).offer();
    let sample = test_publisher.allocate().expect("Couldn't allocate sample");
    assert_eq!(*sample.write(Tire { pressure: 42 }).get(), Tire { pressure: 42 });
    let sample = test_publisher.allocate().expect("Couldn't allocate sample");
    test_publisher.send_sample(sample.write(Tire { pressure: 42 })).expect("Send failed for sample");
}

fn receive_ten(name: &str) {
    let mut event = SkeletonEvent::<u32, UnOffered>::new(name, 10, 1, false).offer();
    let subscriber = com_api::proxy::Subscriber::new(name);
    let test_subscriber = subscriber.subscribe(event.buffer_mut(), 1).unwrap();
    for v in 0..10 {
        event.send(v).unwrap();
    }
    for _ in 0..10 {
        let mut sample_buf = SampleContainer::new();
        let receive_result = test_subscriber.try_receive(event.buffer_mut(), &mut sample_buf, 1);
        match receive_result {
            Ok(0) => panic!("No sample received"),
            Ok(x) => {
                println!(
                    "{} samples received: sample[0] = {}",
                    x,
                    event.buffer_ref().value(sample_buf.front().unwrap()).unwrap()
                )
            }
            Err(e) => panic!("{:?}", e),
        }
    }
}

#[test]
fn runtime_receive_stuff() {
    receive_ten("left_tire");
}

#[test]
fn consumer_receive_stuff() {
    receive_ten("exhaust");
}

fn receive_async(name: &str) {
    let mut event = SkeletonEvent::<u32, UnOffered>::new(name, 4, 1, false).offer();
    let test_subscriber =
        com_api::proxy::Subscriber::new(name).subscribe(event.buffer_mut(), 1).unwrap();
    event.send(7).unwrap();
    let mut sample_buf = SampleContainer::new();
    let result = futures::executor::block_on(futures::future::poll_fn(|_ctx| {
        match test_subscriber.receive_step(event.buffer_mut(), &mut sample_buf, 1, 1, 0) {
            Ok(ReceiveProgress::Done(n)) => std::task::Poll::Ready(Ok(n)),
            Ok(ReceiveProgress::Pending(_)) => std::task::Poll::Pending,
            Err(e) => std::task::Poll::Ready(Err(e)),
        }
    }));
    match result {
        Ok(0) => panic!("No sample received"),
        Ok(x) => {
            println!(
                "{} samples received: sample[0] = {}",
                x,
                event.buffer_ref().value(sample_buf.front().unwrap()).unwrap()
            )
        }
        Err(e) => panic!("{:?}", e),
    }
}

#[test]
fn runtime_receive_async_stuff() {
    receive_async("left_tire");
}

#[test]
fn consumer_receive_async_stuff() {
    receive_async("exhaust");
}

#[test]
fn discovery_by_instance_and_any() {
    let mut rt = runtime();
    for name in ["/a", "/b"] {
        let b = rt.producer_builder::<VehicleInterface>(InstanceSpecifier::new(name).unwrap());
        let p = b.build().unwrap();
        assert!(p.offer(&mut rt).is_ok());
    }
    let none = rt.find_service::<VehicleInterface>(FindServiceSpecifier::Specific(
        InstanceSpecifier::new("/c").unwrap(),
    ));
    assert!(none.get_available_instances(&rt).unwrap().is_empty());
    let only_b = rt.find_service::<VehicleInterface>(FindServiceSpecifier::Specific(
        InstanceSpecifier::new("/b").unwrap(),
    ));
    let found = only_b.get_available_instances(&rt).unwrap();
    assert_eq!(found.len(), 1);
    assert_eq!(found[0].get_instance_identifier(), "/b");
    let any = rt.find_service::<VehicleInterface>(FindServiceSpecifier::Any);
    let all: Vec<String> = any
        .get_available_instances(&rt)
        .unwrap()
        .iter()
        .map(|d| d.get_instance_identifier().to_string())
        .collect();
    assert_eq!(all, vec!["/a".to_string(), "/b".to_string()]);
}
